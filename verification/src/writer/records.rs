//! Record serialization for writing rosbag files.
use crate::codec::{lower_hex, lower_hex_16};
use crate::format::{header_field, le32, le64, lemma_le_lengths, record, time_bytes};
use crate::writer::error::WriteError;
use crate::writer::op;
use crate::writer::write_cursor::{fits, wrote, WriteCursor};
use vstd::prelude::*;
use vstd::string::StringSliceAdditionalSpecFns;

verus! {

/// The compression applied to the data of chunk records.
#[derive(Debug, Clone, Copy, PartialEq, Eq, Structural)]
pub enum Compression {
    /// Chunk data is stored as is.
    Uncompressed,
    /// Chunk data is bzip2-compressed.
    Bzip2,
    /// Chunk data is an LZ4 frame.
    Lz4,
}

/// The bag header record size (padded with spaces).
pub const BAG_HEADER_SIZE: u64 = 4096;

/// The `op=<code>` field that opens every record header.
pub open spec fn op_field(code: u8) -> Seq<u8> {
    header_field("op".spec_bytes(), seq![code])
}

/// The header of the bag header record.
pub open spec fn bag_header_fields(index_pos: u64, conn_count: u32, chunk_count: u32) -> Seq<u8> {
    op_field(op::BAG_HEADER) + header_field("index_pos".spec_bytes(), le64(index_pos))
        + header_field("conn_count".spec_bytes(), le32(conn_count)) + header_field(
        "chunk_count".spec_bytes(),
        le32(chunk_count),
    )
}

/// `n` spaces.
pub open spec fn spaces(n: nat) -> Seq<u8> {
    Seq::new(n, |i: int| 0x20u8)
}

/// The bag header record: its header, then spaces up to `BAG_HEADER_SIZE` bytes.
pub open spec fn bag_header_record(index_pos: u64, conn_count: u32, chunk_count: u32) -> Seq<u8> {
    let header = bag_header_fields(index_pos, conn_count, chunk_count);
    record(header, spaces((BAG_HEADER_SIZE - 8 - header.len()) as nat))
}

/// The byte value of the `latching` field.
pub open spec fn latching_value(latching: bool) -> Seq<u8> {
    if latching {
        seq![0x31u8]
    } else {
        seq![0x30u8]
    }
}

/// The header of a connection record.
pub open spec fn connection_header(conn_id: u32, topic: Seq<u8>) -> Seq<u8> {
    op_field(op::CONNECTION) + header_field("conn".spec_bytes(), le32(conn_id)) + header_field(
        "topic".spec_bytes(),
        topic,
    )
}

/// The data of a connection record: the connection's own header fields; the
/// caller id only when it is not empty.
pub open spec fn connection_data(
    topic: Seq<u8>,
    msg_type: Seq<u8>,
    md5sum: Seq<u8>,
    message_definition: Seq<u8>,
    caller_id: Seq<u8>,
    latching: bool,
) -> Seq<u8> {
    header_field("topic".spec_bytes(), topic) + header_field("type".spec_bytes(), msg_type)
        + header_field("md5sum".spec_bytes(), lower_hex(md5sum)) + header_field(
        "message_definition".spec_bytes(),
        message_definition,
    ) + (if caller_id.len() == 0 {
        Seq::empty()
    } else {
        header_field("callerid".spec_bytes(), caller_id)
    }) + header_field("latching".spec_bytes(), latching_value(latching))
}

/// A connection record.
pub open spec fn connection_record(
    conn_id: u32,
    topic: Seq<u8>,
    msg_type: Seq<u8>,
    md5sum: Seq<u8>,
    message_definition: Seq<u8>,
    caller_id: Seq<u8>,
    latching: bool,
) -> Seq<u8> {
    record(
        connection_header(conn_id, topic),
        connection_data(topic, msg_type, md5sum, message_definition, caller_id, latching),
    )
}

/// The header of a message data record.
pub open spec fn message_data_header(conn_id: u32, time_ns: u64) -> Seq<u8> {
    op_field(op::MESSAGE_DATA) + header_field("conn".spec_bytes(), le32(conn_id)) + header_field(
        "time".spec_bytes(),
        time_bytes(time_ns),
    )
}

/// A message data record.
pub open spec fn message_data_record(conn_id: u32, time_ns: u64, data: Seq<u8>) -> Seq<u8> {
    record(message_data_header(conn_id, time_ns), data)
}

/// The name a chunk record gives its compression.
pub open spec fn compression_name(compression: Compression) -> Seq<u8> {
    match compression {
        Compression::Uncompressed => "none".spec_bytes(),
        Compression::Bzip2 => "bz2".spec_bytes(),
        Compression::Lz4 => "lz4".spec_bytes(),
    }
}

/// The header of a chunk record.
pub open spec fn chunk_header(compression: Compression, uncompressed_size: u32) -> Seq<u8> {
    op_field(op::CHUNK) + header_field("compression".spec_bytes(), compression_name(compression))
        + header_field("size".spec_bytes(), le32(uncompressed_size))
}

/// A chunk record.
pub open spec fn chunk_record(
    compression: Compression,
    uncompressed_size: u32,
    compressed_data: Seq<u8>,
) -> Seq<u8> {
    record(chunk_header(compression, uncompressed_size), compressed_data)
}

/// An entry in the index data record.
#[derive(Debug, Clone, Copy)]
pub struct IndexDataEntry {
    /// Time at which the message was received (nanoseconds since UNIX epoch).
    pub time_ns: u64,
    /// Offset of message data record in uncompressed chunk data.
    pub offset: u32,
}

/// The twelve bytes of an index entry: time, then offset.
pub open spec fn index_entry_bytes(e: IndexDataEntry) -> Seq<u8> {
    time_bytes(e.time_ns) + le32(e.offset)
}

/// The data of an index data record: its entries one after another.
pub open spec fn index_entries_bytes(entries: Seq<IndexDataEntry>) -> Seq<u8>
    decreases entries.len(),
{
    if entries.len() == 0 {
        Seq::empty()
    } else {
        index_entries_bytes(entries.drop_last()) + index_entry_bytes(entries.last())
    }
}

/// The header of an index data record.
pub open spec fn index_data_header(conn_id: u32, count: nat) -> Seq<u8> {
    op_field(op::INDEX_DATA) + header_field("ver".spec_bytes(), le32(1)) + header_field(
        "conn".spec_bytes(),
        le32(conn_id),
    ) + header_field("count".spec_bytes(), le32(count as u32))
}

/// An index data record.
pub open spec fn index_data_record(conn_id: u32, entries: Seq<IndexDataEntry>) -> Seq<u8> {
    record(index_data_header(conn_id, entries.len()), index_entries_bytes(entries))
}

/// An entry in the chunk info record.
#[derive(Debug, Clone, Copy)]
pub struct ChunkInfoEntry {
    /// Connection ID.
    pub conn_id: u32,
    /// Number of messages on this connection in the chunk.
    pub count: u32,
}

/// The eight bytes of a chunk info entry: connection id, then count.
pub open spec fn chunk_info_entry_bytes(e: ChunkInfoEntry) -> Seq<u8> {
    le32(e.conn_id) + le32(e.count)
}

/// The data of a chunk info record: its entries one after another.
pub open spec fn chunk_info_entries_bytes(entries: Seq<ChunkInfoEntry>) -> Seq<u8>
    decreases entries.len(),
{
    if entries.len() == 0 {
        Seq::empty()
    } else {
        chunk_info_entries_bytes(entries.drop_last()) + chunk_info_entry_bytes(entries.last())
    }
}

/// The header of a chunk info record.
pub open spec fn chunk_info_header(
    chunk_pos: u64,
    start_time_ns: u64,
    end_time_ns: u64,
    count: nat,
) -> Seq<u8> {
    op_field(op::CHUNK_INFO) + header_field("ver".spec_bytes(), le32(1)) + header_field(
        "chunk_pos".spec_bytes(),
        le64(chunk_pos),
    ) + header_field("start_time".spec_bytes(), time_bytes(start_time_ns)) + header_field(
        "end_time".spec_bytes(),
        time_bytes(end_time_ns),
    ) + header_field("count".spec_bytes(), le32(count as u32))
}

/// A chunk info record.
pub open spec fn chunk_info_record(
    chunk_pos: u64,
    start_time_ns: u64,
    end_time_ns: u64,
    entries: Seq<ChunkInfoEntry>,
) -> Seq<u8> {
    record(
        chunk_info_header(chunk_pos, start_time_ns, end_time_ns, entries.len()),
        chunk_info_entries_bytes(entries),
    )
}

/// Write a message data record.
pub fn write_message_data(cursor: &mut WriteCursor, conn_id: u32, time_ns: u64, data: &[u8]) -> (r:
    Result<(), WriteError>)
    ensures
        wrote(*old(cursor), *final(cursor), r, message_data_record(conn_id, time_ns, data@)),
{
    proof {
        lemma_le_lengths();
    }
    let mut c = WriteCursor::new(Vec::new());
    c.write_header_field_op(op::MESSAGE_DATA)?;
    c.write_header_field_u32("conn", conn_id)?;
    c.write_header_field_time("time", time_ns)?;
    let header = c.into_inner();
    assert(header@ =~= message_data_header(conn_id, time_ns));
    cursor.write_record(header.as_slice(), data)
}

/// The bytes of the field names are those of their ASCII text.
proof fn lemma_bag_header_names()
    ensures
        "op".spec_bytes().len() == 2,
        "index_pos".spec_bytes().len() == 9,
        "conn_count".spec_bytes().len() == 10,
        "chunk_count".spec_bytes().len() == 11,
{
    reveal_strlit("op");
    reveal_strlit("index_pos");
    reveal_strlit("conn_count");
    reveal_strlit("chunk_count");
    vstd::string::is_ascii_spec_bytes("op");
    vstd::string::is_ascii_spec_bytes("index_pos");
    vstd::string::is_ascii_spec_bytes("conn_count");
    vstd::string::is_ascii_spec_bytes("chunk_count");
}

/// The bag header record is exactly `BAG_HEADER_SIZE` bytes long, whatever
/// the values it holds, so it can be rewritten in place.
pub proof fn lemma_bag_header_record_size(index_pos: u64, conn_count: u32, chunk_count: u32)
    ensures
        bag_header_fields(index_pos, conn_count, chunk_count).len() == 69,
        bag_header_record(index_pos, conn_count, chunk_count).len() == BAG_HEADER_SIZE,
{
    lemma_bag_header_names();
    lemma_le_lengths();
}

/// Write the bag header record.
///
/// The bag header is padded to 4096 bytes to allow updating index_pos later.
pub fn write_bag_header(cursor: &mut WriteCursor, index_pos: u64, conn_count: u32, chunk_count: u32) -> (r:
    Result<(), WriteError>)
    ensures
        wrote(*old(cursor), *final(cursor), r, bag_header_record(index_pos, conn_count, chunk_count)),
{
    proof {
        lemma_le_lengths();
        lemma_bag_header_record_size(index_pos, conn_count, chunk_count);
    }
    let mut c = WriteCursor::new(Vec::new());
    c.write_header_field_op(op::BAG_HEADER)?;
    c.write_header_field_u64("index_pos", index_pos)?;
    c.write_header_field_u32("conn_count", conn_count)?;
    c.write_header_field_u32("chunk_count", chunk_count)?;
    let header = c.into_inner();
    assert(header@ =~= bag_header_fields(index_pos, conn_count, chunk_count));
    // Record format: header_len (4) + header + data_len (4) + data
    let data_len = BAG_HEADER_SIZE as usize - 4 - header.len() - 4;
    let padding = vec![0x20u8; data_len];
    assert(padding@ =~= spaces((BAG_HEADER_SIZE - 8 - header@.len()) as nat));
    cursor.write_record(header.as_slice(), padding.as_slice())
}

/// Write a chunk record.
pub fn write_chunk(
    cursor: &mut WriteCursor,
    compression: Compression,
    uncompressed_size: u32,
    compressed_data: &[u8],
) -> (r: Result<(), WriteError>)
    ensures
        wrote(
            *old(cursor),
            *final(cursor),
            r,
            chunk_record(compression, uncompressed_size, compressed_data@),
        ),
{
    proof {
        lemma_le_lengths();
    }
    let compression_str = match compression {
        Compression::Uncompressed => "none",
        Compression::Bzip2 => "bz2",
        Compression::Lz4 => "lz4",
    };
    let mut c = WriteCursor::new(Vec::new());
    c.write_header_field_op(op::CHUNK)?;
    c.write_header_field_str("compression", compression_str)?;
    c.write_header_field_u32("size", uncompressed_size)?;
    let header = c.into_inner();
    assert(header@ =~= chunk_header(compression, uncompressed_size));
    cursor.write_record(header.as_slice(), compressed_data)
}

/// Write a connection record whose text fields are given as bytes.
pub(crate) fn write_connection_bytes(
    cursor: &mut WriteCursor,
    conn_id: u32,
    topic: &[u8],
    msg_type: &[u8],
    md5sum: &[u8; 16],
    message_definition: &[u8],
    caller_id: &[u8],
    latching: bool,
) -> (r: Result<(), WriteError>)
    ensures
        wrote(
            *old(cursor),
            *final(cursor),
            r,
            connection_record(
                conn_id,
                topic@,
                msg_type@,
                md5sum@,
                message_definition@,
                caller_id@,
                latching,
            ),
        ),
{
    proof {
        lemma_le_lengths();
    }
    // Build the record header
    let mut c = WriteCursor::new(Vec::new());
    c.write_header_field_op(op::CONNECTION)?;
    c.write_header_field_u32("conn", conn_id)?;
    c.write_header_field("topic", topic)?;
    let header = c.into_inner();
    assert(header@ =~= connection_header(conn_id, topic@));
    // Build the connection data (which is itself a header-style format)
    let mut d = WriteCursor::new(Vec::new());
    d.write_header_field("topic", topic)?;
    d.write_header_field("type", msg_type)?;
    // md5sum is encoded as lowercase hex string
    let md5_hex = lower_hex_16(md5sum);
    d.write_header_field("md5sum", md5_hex.as_slice())?;
    d.write_header_field("message_definition", message_definition)?;
    let ghost before_caller = d.contents();
    if caller_id.len() != 0 {
        d.write_header_field("callerid", caller_id)?;
    }
    assert(d.contents() =~= before_caller + (if caller_id@.len() == 0 {
        Seq::empty()
    } else {
        header_field("callerid".spec_bytes(), caller_id@)
    }));
    let latch = if latching {
        [0x31u8]
    } else {
        [0x30u8]
    };
    assert(latch@ =~= latching_value(latching));
    d.write_header_field("latching", latch.as_slice())?;
    let data = d.into_inner();
    assert(data@ =~= connection_data(
        topic@,
        msg_type@,
        md5sum@,
        message_definition@,
        caller_id@,
        latching,
    ));
    cursor.write_record(header.as_slice(), data.as_slice())
}

/// Write a connection record.
pub fn write_connection(
    cursor: &mut WriteCursor,
    conn_id: u32,
    topic: &str,
    msg_type: &str,
    md5sum: &[u8; 16],
    message_definition: &str,
    caller_id: &str,
    latching: bool,
) -> (r: Result<(), WriteError>)
    ensures
        wrote(
            *old(cursor),
            *final(cursor),
            r,
            connection_record(
                conn_id,
                topic.spec_bytes(),
                msg_type.spec_bytes(),
                md5sum@,
                message_definition.spec_bytes(),
                caller_id.spec_bytes(),
                latching,
            ),
        ),
{
    write_connection_bytes(
        cursor,
        conn_id,
        topic.as_bytes(),
        msg_type.as_bytes(),
        md5sum,
        message_definition.as_bytes(),
        caller_id.as_bytes(),
        latching,
    )
}

/// Each index entry takes twelve bytes.
pub proof fn lemma_index_entries_len(entries: Seq<IndexDataEntry>)
    ensures
        index_entries_bytes(entries).len() == 12 * entries.len(),
    decreases entries.len(),
{
    lemma_le_lengths();
    if entries.len() > 0 {
        lemma_index_entries_len(entries.drop_last());
    }
}

/// Write an index data record.
pub fn write_index_data(cursor: &mut WriteCursor, conn_id: u32, entries: &[IndexDataEntry]) -> (r:
    Result<(), WriteError>)
    ensures
        wrote(*old(cursor), *final(cursor), r, index_data_record(conn_id, entries@)),
{
    proof {
        lemma_le_lengths();
        lemma_index_entries_len(entries@);
    }
    let mut c = WriteCursor::new(Vec::new());
    c.write_header_field_op(op::INDEX_DATA)?;
    c.write_header_field_u32("ver", 1)?;
    c.write_header_field_u32("conn", conn_id)?;
    c.write_header_field_u32("count", entries.len() as u32)?;
    let header = c.into_inner();
    assert(header@ =~= index_data_header(conn_id, entries@.len()));
    // Build data: repeated (time, offset) entries, twelve bytes each
    let mut d = WriteCursor::new(Vec::new());
    let mut i: usize = 0;
    while i < entries.len()
        invariant
            *cursor == *old(cursor),
            header@ == index_data_header(conn_id, entries@.len()),
            index_entries_bytes(entries@).len() == 12 * entries@.len(),
            i <= entries@.len(),
            d.offset() == d.contents().len(),
            d.contents() == index_entries_bytes(entries@.take(i as int)),
            forall|v: u32| #[trigger] le32(v).len() == 4,
        decreases entries@.len() - i,
    {
        proof {
            lemma_index_entries_len(entries@.take(i as int));
            assert(entries@.take(i + 1).drop_last() =~= entries@.take(i as int));
        }
        d.write_time(entries[i].time_ns)?;
        d.write_u32(entries[i].offset)?;
        i = i + 1;
    }
    assert(entries@.take(entries@.len() as int) =~= entries@);
    let data = d.into_inner();
    cursor.write_record(header.as_slice(), data.as_slice())
}

/// Each chunk info entry takes eight bytes.
pub proof fn lemma_chunk_info_entries_len(entries: Seq<ChunkInfoEntry>)
    ensures
        chunk_info_entries_bytes(entries).len() == 8 * entries.len(),
    decreases entries.len(),
{
    lemma_le_lengths();
    if entries.len() > 0 {
        lemma_chunk_info_entries_len(entries.drop_last());
    }
}

/// Write a chunk info record.
pub fn write_chunk_info(
    cursor: &mut WriteCursor,
    chunk_pos: u64,
    start_time_ns: u64,
    end_time_ns: u64,
    entries: &[ChunkInfoEntry],
) -> (r: Result<(), WriteError>)
    ensures
        wrote(
            *old(cursor),
            *final(cursor),
            r,
            chunk_info_record(chunk_pos, start_time_ns, end_time_ns, entries@),
        ),
{
    proof {
        lemma_le_lengths();
        lemma_chunk_info_entries_len(entries@);
    }
    let mut c = WriteCursor::new(Vec::new());
    c.write_header_field_op(op::CHUNK_INFO)?;
    c.write_header_field_u32("ver", 1)?;
    c.write_header_field_u64("chunk_pos", chunk_pos)?;
    c.write_header_field_time("start_time", start_time_ns)?;
    c.write_header_field_time("end_time", end_time_ns)?;
    c.write_header_field_u32("count", entries.len() as u32)?;
    let header = c.into_inner();
    assert(header@ =~= chunk_info_header(chunk_pos, start_time_ns, end_time_ns, entries@.len()));
    // Build data: repeated (conn_id, count) entries, eight bytes each
    let mut d = WriteCursor::new(Vec::new());
    let mut i: usize = 0;
    while i < entries.len()
        invariant
            *cursor == *old(cursor),
            header@ == chunk_info_header(chunk_pos, start_time_ns, end_time_ns, entries@.len()),
            chunk_info_entries_bytes(entries@).len() == 8 * entries@.len(),
            i <= entries@.len(),
            d.offset() == d.contents().len(),
            d.contents() == chunk_info_entries_bytes(entries@.take(i as int)),
            forall|v: u32| #[trigger] le32(v).len() == 4,
        decreases entries@.len() - i,
    {
        proof {
            lemma_chunk_info_entries_len(entries@.take(i as int));
            assert(entries@.take(i + 1).drop_last() =~= entries@.take(i as int));
        }
        d.write_u32(entries[i].conn_id)?;
        d.write_u32(entries[i].count)?;
        i = i + 1;
    }
    assert(entries@.take(entries@.len() as int) =~= entries@);
    let data = d.into_inner();
    cursor.write_record(header.as_slice(), data.as_slice())
}

} // verus!
