//! What a reader finds in the bags the writer produces.
use crate::decode::{
    chunk_messages, chunk_payload, field_lookup, fields_bytes, fields_fit, header_value, lemma_parse_fields,
    lemma_parse_records, lemma_read_time, lemma_read_u32, no_equals, parse_records,
    payload_messages, read_time, read_u32, lemma_records_fit_len, records_bytes, records_fit, MessageRead,
};
use crate::decode::{
    lemma_parse_record, lemma_read_u64, lemma_records_bytes_append, parse_record, read_bag, read_u64,
    BagRead,
};
use crate::writer::model::{
    bag_prefix, chunk_info_of, chunks_positioned, conn_record, lemma_flushed_sections, lemma_version_len, version_bytes, BagState,
};
use crate::writer::records::{bag_header_record, lemma_bag_header_record_size, spaces, BAG_HEADER_SIZE};
use crate::codec::{bzip2_stream, lower_hex, lz4_frame};
use crate::writer::bag_writer::message_outcome;
use crate::writer::model::{
    chunk_section, compress, conn_entries, index_records, item_bytes, items_bytes, pending_of,
    sections, sections_match, ChunkItem, ChunkSummary, ConnSpec, PendingMessage,
};
use crate::writer::records::{chunk_info_entries_bytes, index_entries_bytes, lemma_index_entries_len, IndexDataEntry};
use crate::format::{header_field, le32, le64, time_bytes};
use crate::writer::op;
use crate::writer::records::{
    bag_header_fields, chunk_header, chunk_info_header, compression_name, connection_header, index_data_header,
    message_data_header, op_field, Compression, connection_data, latching_value,
};
use vstd::prelude::*;
use vstd::string::StringSliceAdditionalSpecFns;

verus! {

/// The field names the writer uses hold no `=`, and differ where a reader
/// must tell them apart.
pub proof fn lemma_field_names()
    ensures
        no_equals("op".spec_bytes()),
        no_equals("conn".spec_bytes()),
        no_equals("time".spec_bytes()),
        no_equals("topic".spec_bytes()),
        no_equals("compression".spec_bytes()),
        no_equals("size".spec_bytes()),
        no_equals("ver".spec_bytes()),
        no_equals("count".spec_bytes()),
        no_equals("index_pos".spec_bytes()),
        no_equals("conn_count".spec_bytes()),
        no_equals("chunk_count".spec_bytes()),
        "op".spec_bytes().len() == 2,
        "conn".spec_bytes().len() == 4,
        "time".spec_bytes().len() == 4,
        "topic".spec_bytes().len() == 5,
        "compression".spec_bytes().len() == 11,
        "size".spec_bytes().len() == 4,
        "ver".spec_bytes().len() == 3,
        "count".spec_bytes().len() == 5,
        "index_pos".spec_bytes().len() == 9,
        "conn_count".spec_bytes().len() == 10,
        "chunk_count".spec_bytes().len() == 11,
        "conn".spec_bytes() != "time".spec_bytes(),
{
    reveal_strlit("op");
    reveal_strlit("conn");
    reveal_strlit("time");
    reveal_strlit("topic");
    reveal_strlit("compression");
    reveal_strlit("size");
    reveal_strlit("ver");
    reveal_strlit("count");
    reveal_strlit("index_pos");
    reveal_strlit("conn_count");
    reveal_strlit("chunk_count");
    vstd::string::is_ascii_spec_bytes("op");
    vstd::string::is_ascii_spec_bytes("conn");
    vstd::string::is_ascii_spec_bytes("time");
    vstd::string::is_ascii_spec_bytes("topic");
    vstd::string::is_ascii_spec_bytes("compression");
    vstd::string::is_ascii_spec_bytes("size");
    vstd::string::is_ascii_spec_bytes("ver");
    vstd::string::is_ascii_spec_bytes("count");
    vstd::string::is_ascii_spec_bytes("index_pos");
    vstd::string::is_ascii_spec_bytes("conn_count");
    vstd::string::is_ascii_spec_bytes("chunk_count");
    assert("conn".spec_bytes()[0] != "time".spec_bytes()[0]);
}

/// The names of the compressions hold at most four bytes.
pub proof fn lemma_compression_names(c: Compression)
    ensures
        compression_name(c).len() <= 4,
{
    reveal_strlit("none");
    reveal_strlit("bz2");
    reveal_strlit("lz4");
    vstd::string::is_ascii_spec_bytes("none");
    vstd::string::is_ascii_spec_bytes("bz2");
    vstd::string::is_ascii_spec_bytes("lz4");
}

/// The bytes of fields, one more field at the end.
proof fn lemma_fields_bytes_push(fs: Seq<(Seq<u8>, Seq<u8>)>, f: (Seq<u8>, Seq<u8>))
    ensures
        fields_bytes(fs.push(f)) == fields_bytes(fs) + header_field(f.0, f.1),
{
    assert(fs.push(f).drop_last() =~= fs);
}

/// The bytes of three fields.
proof fn lemma_fields_bytes3(a: (Seq<u8>, Seq<u8>), b: (Seq<u8>, Seq<u8>), c: (Seq<u8>, Seq<u8>))
    ensures
        fields_bytes(seq![a, b, c]) == header_field(a.0, a.1) + header_field(b.0, b.1) + header_field(c.0, c.1),
{
    let e = Seq::<(Seq<u8>, Seq<u8>)>::empty();
    lemma_fields_bytes_push(e, a);
    lemma_fields_bytes_push(e.push(a), b);
    lemma_fields_bytes_push(e.push(a).push(b), c);
    assert(e.push(a).push(b).push(c) =~= seq![a, b, c]);
    assert(fields_bytes(e) == Seq::<u8>::empty());
    assert(Seq::<u8>::empty() + header_field(a.0, a.1) =~= header_field(a.0, a.1));
}

/// The bytes of four fields.
proof fn lemma_fields_bytes4(
    a: (Seq<u8>, Seq<u8>),
    b: (Seq<u8>, Seq<u8>),
    c: (Seq<u8>, Seq<u8>),
    d: (Seq<u8>, Seq<u8>),
)
    ensures
        fields_bytes(seq![a, b, c, d]) == header_field(a.0, a.1) + header_field(b.0, b.1) + header_field(c.0, c.1)
            + header_field(d.0, d.1),
{
    lemma_fields_bytes3(a, b, c);
    lemma_fields_bytes_push(seq![a, b, c], d);
    assert(seq![a, b, c].push(d) =~= seq![a, b, c, d]);
}

/// A reader finds the op code, the connection and the time of a message
/// data record's header.
pub proof fn lemma_message_header_fields(conn_id: u32, time_ns: u64)
    ensures
        header_value(message_data_header(conn_id, time_ns), "op".spec_bytes()) == Some(seq![op::MESSAGE_DATA]),
        header_value(message_data_header(conn_id, time_ns), "conn".spec_bytes()) == Some(le32(conn_id)),
        header_value(message_data_header(conn_id, time_ns), "time".spec_bytes()) == Some(time_bytes(time_ns)),
{
    lemma_field_names();
    crate::format::lemma_le_lengths();
    let a = ("op".spec_bytes(), seq![op::MESSAGE_DATA]);
    let b = ("conn".spec_bytes(), le32(conn_id));
    let c = ("time".spec_bytes(), time_bytes(time_ns));
    let fs = seq![a, b, c];
    lemma_fields_bytes3(a, b, c);
    assert(fields_fit(fs));
    lemma_parse_fields(fs);
    reveal_with_fuel(field_lookup, 4);
    assert(fs.drop_first() =~= seq![b, c]);
    assert(fs.drop_first().drop_first() =~= seq![c]);
    assert(a.0 != b.0);
    assert(a.0 != c.0);
}

/// A reader finds the op code, the connection and the topic of a
/// connection record's header.
pub proof fn lemma_connection_header_fields(conn_id: u32, topic: Seq<u8>)
    requires
        topic.len() + 6 <= u32::MAX,
    ensures
        header_value(connection_header(conn_id, topic), "op".spec_bytes()) == Some(seq![op::CONNECTION]),
        header_value(connection_header(conn_id, topic), "conn".spec_bytes()) == Some(le32(conn_id)),
        header_value(connection_header(conn_id, topic), "topic".spec_bytes()) == Some(topic),
{
    lemma_field_names();
    crate::format::lemma_le_lengths();
    let a = ("op".spec_bytes(), seq![op::CONNECTION]);
    let b = ("conn".spec_bytes(), le32(conn_id));
    let c = ("topic".spec_bytes(), topic);
    let fs = seq![a, b, c];
    lemma_fields_bytes3(a, b, c);
    assert(fields_fit(fs));
    lemma_parse_fields(fs);
    reveal_with_fuel(field_lookup, 4);
    assert(fs.drop_first() =~= seq![b, c]);
    assert(fs.drop_first().drop_first() =~= seq![c]);
    assert(a.0 != b.0 && a.0 != c.0 && b.0 != c.0);
}

/// The names of the fields of a chunk info record's header hold no `=`.
proof fn lemma_chunk_info_names()
    ensures
        no_equals("chunk_pos".spec_bytes()),
        no_equals("start_time".spec_bytes()),
        no_equals("end_time".spec_bytes()),
        "chunk_pos".spec_bytes().len() == 9,
        "start_time".spec_bytes().len() == 10,
        "end_time".spec_bytes().len() == 8,
{
    reveal_strlit("chunk_pos");
    reveal_strlit("start_time");
    reveal_strlit("end_time");
    vstd::string::is_ascii_spec_bytes("chunk_pos");
    vstd::string::is_ascii_spec_bytes("start_time");
    vstd::string::is_ascii_spec_bytes("end_time");
}

/// A reader finds the op code and the chunk position of a chunk info
/// record's header.
pub proof fn lemma_chunk_info_header_fields(chunk_pos: u64, start_time_ns: u64, end_time_ns: u64, count: nat)
    ensures
        header_value(chunk_info_header(chunk_pos, start_time_ns, end_time_ns, count), "op".spec_bytes())
            == Some(seq![op::CHUNK_INFO]),
        header_value(chunk_info_header(chunk_pos, start_time_ns, end_time_ns, count), "chunk_pos".spec_bytes())
            == Some(le64(chunk_pos)),
{
    lemma_field_names();
    lemma_chunk_info_names();
    crate::format::lemma_le_lengths();
    let a = ("op".spec_bytes(), seq![op::CHUNK_INFO]);
    let b = ("ver".spec_bytes(), le32(1));
    let c = ("chunk_pos".spec_bytes(), le64(chunk_pos));
    let d = ("start_time".spec_bytes(), time_bytes(start_time_ns));
    let e = ("end_time".spec_bytes(), time_bytes(end_time_ns));
    let g = ("count".spec_bytes(), le32(count as u32));
    lemma_fields_bytes4(a, b, c, d);
    lemma_fields_bytes_push(seq![a, b, c, d], e);
    lemma_fields_bytes_push(seq![a, b, c, d].push(e), g);
    let fs = seq![a, b, c, d, e, g];
    assert(seq![a, b, c, d].push(e).push(g) =~= fs);
    assert(fields_fit(fs));
    lemma_parse_fields(fs);
    reveal_with_fuel(field_lookup, 4);
    assert(fs.drop_first() =~= seq![b, c, d, e, g]);
    assert(fs.drop_first().drop_first() =~= seq![c, d, e, g]);
    assert(a.0 != b.0 && a.0 != c.0 && b.0 != c.0);
}

/// The value of a field is found under its name when no field before it
/// has that name.
proof fn lemma_field_lookup_at(fields: Seq<(Seq<u8>, Seq<u8>)>, i: int)
    requires
        0 <= i < fields.len(),
        forall|k: int| 0 <= k < i ==> (#[trigger] fields[k]).0 != fields[i].0,
    ensures
        field_lookup(fields, fields[i].0) == Some(fields[i].1),
    decreases i,
{
    if i > 0 {
        let rest = fields.drop_first();
        assert(fields[0].0 != fields[i].0);
        assert forall|k: int| 0 <= k < i - 1 implies (#[trigger] rest[k]).0 != rest[i - 1].0 by {
            assert(rest[k] == fields[k + 1]);
        }
        lemma_field_lookup_at(rest, i - 1);
    }
}

/// No value is found under a name that no field has.
proof fn lemma_field_lookup_absent(fields: Seq<(Seq<u8>, Seq<u8>)>, name: Seq<u8>)
    requires
        forall|k: int| 0 <= k < fields.len() ==> (#[trigger] fields[k]).0 != name,
    ensures
        field_lookup(fields, name) is None,
    decreases fields.len(),
{
    if fields.len() > 0 {
        let rest = fields.drop_first();
        assert(fields[0].0 != name);
        assert forall|k: int| 0 <= k < rest.len() implies (#[trigger] rest[k]).0 != name by {
            assert(rest[k] == fields[k + 1]);
        }
        lemma_field_lookup_absent(rest, name);
    }
}

/// The names of the fields of a connection record's data hold no `=`.
proof fn lemma_connection_data_names()
    ensures
        no_equals("type".spec_bytes()),
        no_equals("md5sum".spec_bytes()),
        no_equals("message_definition".spec_bytes()),
        no_equals("callerid".spec_bytes()),
        no_equals("latching".spec_bytes()),
        "type".spec_bytes().len() == 4,
        "md5sum".spec_bytes().len() == 6,
        "message_definition".spec_bytes().len() == 18,
        "callerid".spec_bytes().len() == 8,
        "latching".spec_bytes().len() == 8,
        "callerid".spec_bytes() != "latching".spec_bytes(),
{
    reveal_strlit("type");
    reveal_strlit("md5sum");
    reveal_strlit("message_definition");
    reveal_strlit("callerid");
    reveal_strlit("latching");
    vstd::string::is_ascii_spec_bytes("type");
    vstd::string::is_ascii_spec_bytes("md5sum");
    vstd::string::is_ascii_spec_bytes("message_definition");
    vstd::string::is_ascii_spec_bytes("callerid");
    vstd::string::is_ascii_spec_bytes("latching");
    assert("callerid".spec_bytes()[0] != "latching".spec_bytes()[0]);
}

/// The data of a connection record reads back what was registered: its
/// topic, its message type, the lower-case hex of its md5 sum, its message
/// definition, its caller id (a field only when the caller id is not
/// empty), and its latching flag as `1` or `0`. This holds when each of
/// these values leaves room for its field's length to fit 32 bits.
pub proof fn law_connection_data_reads_back(
    topic: Seq<u8>,
    msg_type: Seq<u8>,
    md5sum: Seq<u8>,
    message_definition: Seq<u8>,
    caller_id: Seq<u8>,
    latching: bool,
)
    requires
        topic.len() + 100 <= u32::MAX,
        msg_type.len() + 100 <= u32::MAX,
        md5sum.len() <= 1000,
        message_definition.len() + 100 <= u32::MAX,
        caller_id.len() + 100 <= u32::MAX,
    ensures
        ({
            let d = connection_data(topic, msg_type, md5sum, message_definition, caller_id, latching);
            &&& header_value(d, "topic".spec_bytes()) == Some(topic)
            &&& header_value(d, "type".spec_bytes()) == Some(msg_type)
            &&& header_value(d, "md5sum".spec_bytes()) == Some(lower_hex(md5sum))
            &&& header_value(d, "message_definition".spec_bytes()) == Some(message_definition)
            &&& header_value(d, "callerid".spec_bytes()) == (if caller_id.len() == 0 {
                None
            } else {
                Some(caller_id)
            })
            &&& header_value(d, "latching".spec_bytes()) == Some(
                if latching {
                    seq![0x31u8]
                } else {
                    seq![0x30u8]
                },
            )
        }),
{
    lemma_field_names();
    lemma_connection_data_names();
    let a = ("topic".spec_bytes(), topic);
    let b = ("type".spec_bytes(), msg_type);
    let c = ("md5sum".spec_bytes(), lower_hex(md5sum));
    let e = ("message_definition".spec_bytes(), message_definition);
    let cl = ("callerid".spec_bytes(), caller_id);
    let g = ("latching".spec_bytes(), latching_value(latching));
    lemma_fields_bytes4(a, b, c, e);
    let four = seq![a, b, c, e];
    let fs = if caller_id.len() == 0 {
        four.push(g)
    } else {
        four.push(cl).push(g)
    };
    if caller_id.len() == 0 {
        lemma_fields_bytes_push(four, g);
    } else {
        lemma_fields_bytes_push(four, cl);
        lemma_fields_bytes_push(four.push(cl), g);
    }
    let d = connection_data(topic, msg_type, md5sum, message_definition, caller_id, latching);
    assert(fields_bytes(fs) =~= d);
    assert(fields_fit(fs));
    lemma_parse_fields(fs);
    assert(fs[0] == a && fs[1] == b && fs[2] == c && fs[3] == e);
    lemma_field_lookup_at(fs, 0);
    lemma_field_lookup_at(fs, 1);
    lemma_field_lookup_at(fs, 2);
    lemma_field_lookup_at(fs, 3);
    if caller_id.len() == 0 {
        assert(fs[4] == g);
        lemma_field_lookup_at(fs, 4);
        lemma_field_lookup_absent(fs, "callerid".spec_bytes());
    } else {
        assert(fs[4] == cl && fs[5] == g);
        lemma_field_lookup_at(fs, 4);
        lemma_field_lookup_at(fs, 5);
    }
}

/// A reader finds the op code and the compression of a chunk record's header.
pub proof fn lemma_chunk_header_fields(compression: Compression, size: u32)
    ensures
        header_value(chunk_header(compression, size), "op".spec_bytes()) == Some(seq![op::CHUNK]),
        header_value(chunk_header(compression, size), "compression".spec_bytes()) == Some(
            compression_name(compression),
        ),
{
    lemma_field_names();
    lemma_compression_names(compression);
    crate::format::lemma_le_lengths();
    let a = ("op".spec_bytes(), seq![op::CHUNK]);
    let b = ("compression".spec_bytes(), compression_name(compression));
    let c = ("size".spec_bytes(), le32(size));
    let fs = seq![a, b, c];
    lemma_fields_bytes3(a, b, c);
    assert(fields_fit(fs));
    lemma_parse_fields(fs);
    reveal_with_fuel(field_lookup, 3);
    assert(fs.drop_first() =~= seq![b, c]);
    assert(a.0 != b.0);
}

/// A reader finds the op code of an index data record's header.
pub proof fn lemma_index_data_header_fields(conn_id: u32, count: nat)
    ensures
        header_value(index_data_header(conn_id, count), "op".spec_bytes()) == Some(seq![op::INDEX_DATA]),
{
    lemma_field_names();
    crate::format::lemma_le_lengths();
    let a = ("op".spec_bytes(), seq![op::INDEX_DATA]);
    let b = ("ver".spec_bytes(), le32(1));
    let c = ("conn".spec_bytes(), le32(conn_id));
    let d = ("count".spec_bytes(), le32(count as u32));
    let fs = seq![a, b, c, d];
    lemma_fields_bytes4(a, b, c, d);
    assert(fields_fit(fs));
    lemma_parse_fields(fs);
}

/// A reader finds the op code, the index position and the counts of the
/// bag header record's header.
pub proof fn lemma_bag_header_fields(index_pos: u64, conn_count: u32, chunk_count: u32)
    ensures
        header_value(bag_header_fields(index_pos, conn_count, chunk_count), "op".spec_bytes()) == Some(
            seq![op::BAG_HEADER],
        ),
        header_value(bag_header_fields(index_pos, conn_count, chunk_count), "index_pos".spec_bytes())
            == Some(le64(index_pos)),
        header_value(bag_header_fields(index_pos, conn_count, chunk_count), "conn_count".spec_bytes())
            == Some(le32(conn_count)),
        header_value(bag_header_fields(index_pos, conn_count, chunk_count), "chunk_count".spec_bytes())
            == Some(le32(chunk_count)),
{
    lemma_field_names();
    crate::format::lemma_le_lengths();
    let a = ("op".spec_bytes(), seq![op::BAG_HEADER]);
    let b = ("index_pos".spec_bytes(), le64(index_pos));
    let c = ("conn_count".spec_bytes(), le32(conn_count));
    let d = ("chunk_count".spec_bytes(), le32(chunk_count));
    let fs = seq![a, b, c, d];
    lemma_fields_bytes4(a, b, c, d);
    assert(fields_fit(fs));
    lemma_parse_fields(fs);
    reveal_with_fuel(field_lookup, 5);
    assert(a.0 != b.0 && a.0 != c.0 && a.0 != d.0 && b.0 != c.0 && b.0 != d.0 && c.0 != d.0);
    assert(fs.drop_first() =~= seq![b, c, d]);
    assert(fs.drop_first().drop_first() =~= seq![c, d]);
    assert(fs.drop_first().drop_first().drop_first() =~= seq![d]);
}

/// The header and data of an item's record.
pub open spec fn item_record(item: ChunkItem) -> (Seq<u8>, Seq<u8>) {
    match item {
        ChunkItem::Connection(c) => (
            connection_header(c.id, c.topic),
            connection_data(c.topic, c.msg_type, c.md5sum, c.message_definition, c.caller_id, c.latching),
        ),
        ChunkItem::Message { conn_id, time_ns, data } => (message_data_header(conn_id, time_ns), data),
    }
}

/// The records of a chunk's items.
pub open spec fn item_records(items: Seq<ChunkItem>) -> Seq<(Seq<u8>, Seq<u8>)> {
    items.map_values(|i: ChunkItem| item_record(i))
}

/// The messages among a chunk's items, in order.
pub open spec fn item_messages(items: Seq<ChunkItem>) -> Seq<MessageRead>
    decreases items.len(),
{
    if items.len() == 0 {
        Seq::empty()
    } else {
        let rest = item_messages(items.drop_last());
        match items.last() {
            ChunkItem::Connection(_) => rest,
            ChunkItem::Message { conn_id, time_ns, data } => rest.push(
                MessageRead { conn_id, time_ns: time_ns as int, data },
            ),
        }
    }
}

/// Every message time of the items has its seconds within 32 bits.
pub open spec fn times_fit(items: Seq<ChunkItem>) -> bool {
    forall|i: int|
        0 <= i < items.len() ==> ((#[trigger] items[i]) matches ChunkItem::Message { time_ns, .. }
            ==> time_ns / 1_000_000_000 <= u32::MAX)
}

/// The data of a chunk is the bytes of its items' records.
pub proof fn lemma_items_records(items: Seq<ChunkItem>)
    ensures
        items_bytes(items) == records_bytes(item_records(items)),
    decreases items.len(),
{
    if items.len() > 0 {
        lemma_items_records(items.drop_last());
        assert(item_records(items).drop_last() =~= item_records(items.drop_last()));
    }
}

/// The messages of a chunk's data are the messages of its items, when the
/// data is at most `u32::MAX` bytes and every time has 32-bit seconds.
pub proof fn lemma_payload_reads_back(items: Seq<ChunkItem>)
    requires
        items_bytes(items).len() <= u32::MAX,
        times_fit(items),
    ensures
        parse_records(items_bytes(items)) == Some(item_records(items)),
        payload_messages(item_records(items)) == item_messages(items),
    decreases items.len(),
{
    lemma_items_records(items);
    lemma_records_fit_len(item_records(items));
    lemma_parse_records(item_records(items));
    if items.len() > 0 {
        let pre = items.drop_last();
        assert(times_fit(pre)) by {
            assert forall|i: int| 0 <= i < pre.len() implies ((#[trigger] pre[i]) matches ChunkItem::Message {
                time_ns,
                ..
            } ==> time_ns / 1_000_000_000 <= u32::MAX) by {
                assert(pre[i] == items[i]);
            }
        }
        lemma_payload_reads_back(pre);
        assert(item_records(items).drop_last() =~= item_records(pre));
        let last = items.last();
        let r = item_record(last);
        assert(r == item_records(items).last());
        assert(items_bytes(items) == items_bytes(pre) + item_bytes(last));
        lemma_field_names();
        crate::format::lemma_le_lengths();
        match last {
            ChunkItem::Connection(c) => {
                assert(seq![op::CONNECTION] != seq![op::MESSAGE_DATA]) by {
                    assert(seq![op::CONNECTION][0] != seq![op::MESSAGE_DATA][0]);
                }
                lemma_connection_header_fields(c.id, c.topic);
            },
            ChunkItem::Message { conn_id, time_ns, data } => {
                assert(items[items.len() - 1] == last);
                lemma_message_header_fields(conn_id, time_ns);
                lemma_read_u32(conn_id, Seq::empty());
                assert(le32(conn_id) + Seq::<u8>::empty() =~= le32(conn_id));
                lemma_read_time(time_ns);
            },
        }
    }
}

/// The index data records of a chunk, as header and data.
pub open spec fn index_record_list(pending: Seq<PendingMessage>, n: nat) -> Seq<(Seq<u8>, Seq<u8>)>
    decreases n,
{
    if n == 0 {
        Seq::empty()
    } else {
        let id = (n - 1) as u32;
        let entries = conn_entries(pending, id);
        index_record_list(pending, (n - 1) as nat) + (if entries.len() > 0 {
            seq![(index_data_header(id, entries.len()), index_entries_bytes(entries))]
        } else {
            Seq::empty()
        })
    }
}

/// One record's bytes.
proof fn lemma_records_bytes_one(r: (Seq<u8>, Seq<u8>))
    ensures
        records_bytes(seq![r]) == crate::format::record(r.0, r.1),
{
    assert(seq![r].drop_last() =~= Seq::<(Seq<u8>, Seq<u8>)>::empty());
    assert(records_bytes(Seq::<(Seq<u8>, Seq<u8>)>::empty()) == Seq::<u8>::empty());
    assert(seq![r].last() == r);
    assert(Seq::<u8>::empty() + crate::format::record(r.0, r.1) =~= crate::format::record(r.0, r.1));
}

/// The index data records are those records one after another.
pub proof fn lemma_index_record_list(pending: Seq<PendingMessage>, n: nat)
    ensures
        index_records(pending, n) == records_bytes(index_record_list(pending, n)),
    decreases n,
{
    if n > 0 {
        let id = (n - 1) as u32;
        let entries = conn_entries(pending, id);
        lemma_index_record_list(pending, (n - 1) as nat);
        if entries.len() > 0 {
            let r = (index_data_header(id, entries.len()), index_entries_bytes(entries));
            lemma_records_bytes_append(index_record_list(pending, (n - 1) as nat), seq![r]);
            lemma_records_bytes_one(r);
        } else {
            assert(index_record_list(pending, (n - 1) as nat) + Seq::<(Seq<u8>, Seq<u8>)>::empty()
                =~= index_record_list(pending, (n - 1) as nat));
        }
    }
}

/// The messages of records put after others are read after theirs.
pub proof fn lemma_chunk_messages_append(
    inflate: spec_fn(Seq<u8>, Seq<u8>) -> Option<Seq<u8>>,
    a: Seq<(Seq<u8>, Seq<u8>)>,
    b: Seq<(Seq<u8>, Seq<u8>)>,
)
    ensures
        chunk_messages(inflate, a + b) == match chunk_messages(inflate, a) {
            None => None,
            Some(x) => match chunk_messages(inflate, b) {
                None => None,
                Some(y) => Some(x + y),
            },
        },
    decreases b.len(),
{
    if b.len() == 0 {
        assert(a + b =~= a);
        if let Some(x) = chunk_messages(inflate, a) {
            assert(x + Seq::<MessageRead>::empty() =~= x);
        }
    } else {
        lemma_chunk_messages_append(inflate, a, b.drop_last());
        assert((a + b).drop_last() =~= a + b.drop_last());
        assert((a + b).last() == b.last());
        if let Some(x) = chunk_messages(inflate, a) {
            if let Some(y) = chunk_messages(inflate, b.drop_last()) {
                assert forall|z: Seq<MessageRead>| #![auto] x + y + z =~= x + (y + z) by {}
            }
        }
    }
}

/// Index data records hold no chunk, so a reader passes over them.
pub proof fn lemma_index_records_no_messages(
    inflate: spec_fn(Seq<u8>, Seq<u8>) -> Option<Seq<u8>>,
    pending: Seq<PendingMessage>,
    n: nat,
)
    ensures
        chunk_messages(inflate, index_record_list(pending, n)) == Some(Seq::<MessageRead>::empty()),
    decreases n,
{
    if n > 0 {
        let id = (n - 1) as u32;
        let entries = conn_entries(pending, id);
        let pre = index_record_list(pending, (n - 1) as nat);
        lemma_index_records_no_messages(inflate, pending, (n - 1) as nat);
        assert(index_record_list(pending, n) == pre + (if entries.len() > 0 {
            seq![(index_data_header(id, entries.len()), index_entries_bytes(entries))]
        } else {
            Seq::empty()
        }));
        if entries.len() > 0 {
            let r = (index_data_header(id, entries.len()), index_entries_bytes(entries));
            lemma_chunk_messages_append(inflate, pre, seq![r]);
            lemma_index_data_header_fields(id, entries.len());
            assert(seq![op::INDEX_DATA] != seq![op::CHUNK]) by {
                assert(seq![op::INDEX_DATA][0] != seq![op::CHUNK][0]);
            }
            assert(seq![r].drop_last() =~= Seq::<(Seq<u8>, Seq<u8>)>::empty());
            assert(chunk_messages(inflate, Seq::<(Seq<u8>, Seq<u8>)>::empty()) == Some(Seq::<MessageRead>::empty()));
            assert(seq![r].last() == r);
            assert(chunk_messages(inflate, seq![r]) == Some(Seq::<MessageRead>::empty()));
            assert(Seq::<MessageRead>::empty() + Seq::<MessageRead>::empty() =~= Seq::<MessageRead>::empty());
        } else {
            assert(pre + Seq::<(Seq<u8>, Seq<u8>)>::empty() =~= pre);
        }
    }
}

/// Each message of a chunk takes more bytes of the chunk's data than the
/// twelve bytes of its index entry.
pub proof fn lemma_entries_within_payload(items: Seq<ChunkItem>, id: u32)
    ensures
        12 * conn_entries(pending_of(items), id).len() <= items_bytes(items).len(),
    decreases items.len(),
{
    if items.len() > 0 {
        let pre = items.drop_last();
        lemma_entries_within_payload(pre, id);
        lemma_field_names();
        crate::format::lemma_le_lengths();
        match items.last() {
            ChunkItem::Connection(_) => {},
            ChunkItem::Message { conn_id, time_ns, data } => {
                let p = pending_of(items);
                assert(p.drop_last() =~= pending_of(pre));
            },
        }
    }
}

/// The records written when a chunk is flushed: the chunk record, then its
/// index data records.
pub open spec fn section_records(compression: Compression, items: Seq<ChunkItem>, n: nat) -> Seq<
    (Seq<u8>, Seq<u8>),
> {
    let payload = items_bytes(items);
    seq![(chunk_header(compression, payload.len() as u32), compress(compression, payload))]
        + index_record_list(pending_of(items), n)
}

/// A chunk's section is the bytes of its records.
pub proof fn lemma_section_records(compression: Compression, items: Seq<ChunkItem>, n: nat)
    ensures
        chunk_section(compression, items, n) == records_bytes(section_records(compression, items, n)),
{
    let payload = items_bytes(items);
    let r = (chunk_header(compression, payload.len() as u32), compress(compression, payload));
    lemma_records_bytes_append(seq![r], index_record_list(pending_of(items), n));
    lemma_records_bytes_one(r);
    lemma_index_record_list(pending_of(items), n);
}

/// The records of completed chunks, one chunk after another.
pub open spec fn chunks_records(compression: Compression, chunks: Seq<ChunkSummary>) -> Seq<
    (Seq<u8>, Seq<u8>),
>
    decreases chunks.len(),
{
    if chunks.len() == 0 {
        Seq::empty()
    } else {
        chunks_records(compression, chunks.drop_last()) + section_records(
            compression,
            chunks.last().items,
            chunks.last().n_conns,
        )
    }
}

/// The messages of completed chunks, one chunk after another.
pub open spec fn chunks_messages(chunks: Seq<ChunkSummary>) -> Seq<MessageRead>
    decreases chunks.len(),
{
    if chunks.len() == 0 {
        Seq::empty()
    } else {
        chunks_messages(chunks.drop_last()) + item_messages(chunks.last().items)
    }
}

/// The sections written are the bytes of the chunks' records.
pub proof fn lemma_sections_records(compression: Compression, chunks: Seq<ChunkSummary>)
    requires
        sections_match(compression, chunks),
    ensures
        sections(chunks) == records_bytes(chunks_records(compression, chunks)),
    decreases chunks.len(),
{
    if chunks.len() > 0 {
        let pre = chunks.drop_last();
        assert(sections_match(compression, pre)) by {
            assert forall|i: int| 0 <= i < pre.len() implies (#[trigger] pre[i]).section == chunk_section(
                compression,
                pre[i].items,
                pre[i].n_conns,
            ) by {
                assert(pre[i] == chunks[i]);
            }
        }
        lemma_sections_records(compression, pre);
        let last = chunks.last();
        assert(chunks[chunks.len() - 1] == last);
        assert(chunks.map_values(|c: ChunkSummary| c.section) =~= pre.map_values(
            |c: ChunkSummary| c.section,
        ).push(last.section));
        crate::format::lemma_concat_push(pre.map_values(|c: ChunkSummary| c.section), last.section);
        lemma_section_records(compression, last.items, last.n_conns);
        lemma_records_bytes_append(
            chunks_records(compression, pre),
            section_records(compression, last.items, last.n_conns),
        );
    }
}

/// A chunk can be read back: its data, and the data stored for it under
/// `compression`, are at most `u32::MAX` bytes, and its message times have
/// 32-bit seconds.
pub open spec fn chunk_readable(compression: Compression, items: Seq<ChunkItem>) -> bool {
    &&& items_bytes(items).len() <= u32::MAX
    &&& compress(compression, items_bytes(items)).len() <= u32::MAX
    &&& times_fit(items)
}

/// Whether the decompressor `inflate` undoes the writer's compressions: given
/// the name `lz4` and an LZ4 frame of some data, or the name `bz2` and a
/// bzip2 stream of some data, it gives back that data.
pub open spec fn undoes_compression(inflate: spec_fn(Seq<u8>, Seq<u8>) -> Option<Seq<u8>>) -> bool {
    &&& forall|p: Seq<u8>| inflate("lz4".spec_bytes(), #[trigger] lz4_frame(p)) == Some(p)
    &&& forall|p: Seq<u8>| inflate("bz2".spec_bytes(), #[trigger] bzip2_stream(p)) == Some(p)
}

/// A reader whose decompressor undoes the writer's compressions gets back
/// the data of a chunk from the name and the data the chunk record stores.
pub proof fn lemma_chunk_payload(inflate: spec_fn(Seq<u8>, Seq<u8>) -> Option<Seq<u8>>, c: Compression, payload: Seq<u8>)
    requires
        undoes_compression(inflate),
    ensures
        chunk_payload(inflate, compression_name(c), compress(c, payload)) == Some(payload),
{
    reveal_strlit("none");
    reveal_strlit("bz2");
    reveal_strlit("lz4");
    vstd::string::is_ascii_spec_bytes("none");
    vstd::string::is_ascii_spec_bytes("bz2");
    vstd::string::is_ascii_spec_bytes("lz4");
    match c {
        Compression::Uncompressed => {},
        Compression::Lz4 => {
            assert(compression_name(c)[0] != "none".spec_bytes()[0]);
            assert(inflate("lz4".spec_bytes(), lz4_frame(payload)) == Some(payload));
        },
        Compression::Bzip2 => {
            assert(compression_name(c)[0] != "none".spec_bytes()[0]);
            assert(inflate("bz2".spec_bytes(), bzip2_stream(payload)) == Some(payload));
        },
    }
}

/// The index data records of a readable chunk have fitting lengths.
proof fn lemma_index_records_fit(items: Seq<ChunkItem>, n: nat)
    requires
        items_bytes(items).len() <= u32::MAX,
    ensures
        records_fit(index_record_list(pending_of(items), n)),
    decreases n,
{
    if n > 0 {
        let id = (n - 1) as u32;
        let pending = pending_of(items);
        let entries = conn_entries(pending, id);
        let pre = index_record_list(pending, (n - 1) as nat);
        lemma_index_records_fit(items, (n - 1) as nat);
        if entries.len() > 0 {
            let r = (index_data_header(id, entries.len()), index_entries_bytes(entries));
            lemma_entries_within_payload(items, id);
            lemma_index_entries_len(entries);
            lemma_field_names();
            crate::format::lemma_le_lengths();
            let all = pre + seq![r];
            assert forall|i: int| 0 <= i < all.len() implies (#[trigger] all[i]).0.len() <= u32::MAX
                && all[i].1.len() <= u32::MAX by {
                if i < pre.len() {
                    assert(all[i] == pre[i]);
                }
            }
        } else {
            assert(pre + Seq::<(Seq<u8>, Seq<u8>)>::empty() =~= pre);
        }
    }
}

/// The records of readable chunks have fitting lengths, and a reader whose
/// decompressor undoes the writer's compressions finds in them the chunks'
/// messages, one chunk after another.
pub proof fn lemma_chunks_read_back(
    inflate: spec_fn(Seq<u8>, Seq<u8>) -> Option<Seq<u8>>,
    c: Compression,
    chunks: Seq<ChunkSummary>,
)
    requires
        undoes_compression(inflate),
        forall|i: int| 0 <= i < chunks.len() ==> chunk_readable(c, #[trigger] chunks[i].items),
    ensures
        records_fit(chunks_records(c, chunks)),
        chunk_messages(inflate, chunks_records(c, chunks)) == Some(chunks_messages(chunks)),
    decreases chunks.len(),
{
    if chunks.len() == 0 {
        assert(chunk_messages(inflate, Seq::<(Seq<u8>, Seq<u8>)>::empty()) == Some(Seq::<MessageRead>::empty()));
    } else {
        let pre = chunks.drop_last();
        let last = chunks.last();
        assert(chunks[chunks.len() - 1] == last);
        assert forall|i: int| 0 <= i < pre.len() implies chunk_readable(c, #[trigger] pre[i].items) by {
            assert(pre[i] == chunks[i]);
        }
        lemma_chunks_read_back(inflate, c, pre);
        let items = last.items;
        let payload = items_bytes(items);
        let r = (chunk_header(c, payload.len() as u32), compress(c, payload));
        let idx = index_record_list(pending_of(items), last.n_conns);
        let a = chunks_records(c, pre);
        let sec = section_records(c, items, last.n_conns);
        // lengths
        lemma_index_records_fit(items, last.n_conns);
        lemma_field_names();
        lemma_compression_names(c);
        crate::format::lemma_le_lengths();
        assert(records_fit(a + sec)) by {
            assert forall|i: int| 0 <= i < (a + sec).len() implies (#[trigger] (a + sec)[i]).0.len()
                <= u32::MAX && (a + sec)[i].1.len() <= u32::MAX by {
                if i < a.len() {
                    assert((a + sec)[i] == a[i]);
                } else if i == a.len() {
                    assert((a + sec)[i] == r);
                } else {
                    assert((a + sec)[i] == idx[i - a.len() - 1]);
                }
            }
        }
        // messages
        lemma_payload_reads_back(items);
        lemma_chunk_header_fields(c, payload.len() as u32);
        lemma_chunk_payload(inflate, c, payload);
        assert(seq![op::CHUNK] == seq![op::CHUNK]);
        assert(seq![r].drop_last() =~= Seq::<(Seq<u8>, Seq<u8>)>::empty());
        assert(chunk_messages(inflate, Seq::<(Seq<u8>, Seq<u8>)>::empty()) == Some(Seq::<MessageRead>::empty()));
        assert(seq![r].last() == r);
        assert(chunk_messages(inflate, seq![r]) == Some(Seq::<MessageRead>::empty() + item_messages(items)));
        assert(Seq::<MessageRead>::empty() + item_messages(items) =~= item_messages(items));
        lemma_index_records_no_messages(inflate, pending_of(items), last.n_conns);
        lemma_chunk_messages_append(inflate, seq![r], idx);
        assert(item_messages(items) + Seq::<MessageRead>::empty() =~= item_messages(items));
        lemma_chunk_messages_append(inflate, a, sec);
    }
}

/// A chunk has one index entry per message.
proof fn lemma_item_messages_len(items: Seq<ChunkItem>)
    ensures
        item_messages(items).len() == pending_of(items).len(),
    decreases items.len(),
{
    if items.len() > 0 {
        lemma_item_messages_len(items.drop_last());
    }
}

/// Each index entry of a chunk points at its message: the record at the
/// entry's offset in the chunk's data is a message data record of the
/// entry's connection and time, and its data is that message's data (the
/// offsets are exact while the chunk's data is at most `u32::MAX` bytes).
pub proof fn law_index_offsets_locate_messages(items: Seq<ChunkItem>, k: int)
    requires
        items_bytes(items).len() <= u32::MAX,
        0 <= k < pending_of(items).len(),
    ensures
        ({
            let m = pending_of(items)[k];
            match parse_record(items_bytes(items).skip(m.offset as int)) {
                Some((h, d, rest)) => {
                    &&& header_value(h, "op".spec_bytes()) == Some(seq![op::MESSAGE_DATA])
                    &&& header_value(h, "conn".spec_bytes()) == Some(le32(m.conn_id))
                    &&& header_value(h, "time".spec_bytes()) == Some(time_bytes(m.time_ns))
                    &&& d == item_messages(items)[k].data
                },
                None => false,
            }
        }),
    decreases items.len(),
{
    lemma_item_messages_len(items);
    let pre = items.drop_last();
    let last = items.last();
    let bytes = items_bytes(items);
    crate::format::lemma_le_lengths();
    assert(bytes == items_bytes(pre) + item_bytes(last));
    let p = pending_of(items);
    let m = p[k];
    if k < pending_of(pre).len() {
        law_index_offsets_locate_messages(pre, k);
        lemma_item_messages_len(pre);
        assert(item_messages(items)[k] == item_messages(pre)[k]);
        assert(p[k] == pending_of(pre)[k]);
        let mp = pending_of(pre)[k];
        // The record at the offset is followed by more bytes now; its header is unchanged.
        lemma_offset_within(pre, k);
        let tail = items_bytes(pre).skip(mp.offset as int);
        assert(bytes.skip(m.offset as int) =~= tail + item_bytes(last));
        if let Some((h, d, rest)) = parse_record(tail) {
            assert(tail =~= crate::format::record(h, d) + rest) by {
                lemma_parse_record_inverse(tail);
            }
            lemma_parse_record(h, d, rest + item_bytes(last));
            assert(crate::format::record(h, d) + rest + item_bytes(last) =~= crate::format::record(h, d) + (rest
                + item_bytes(last)));
        }
    } else {
        match last {
            ChunkItem::Connection(_) => {},
            ChunkItem::Message { conn_id, time_ns, data } => {
                assert(m.offset == items_bytes(pre).len());
                assert(bytes.skip(m.offset as int) =~= item_bytes(last) + Seq::<u8>::empty());
                lemma_field_names();
                lemma_parse_record(message_data_header(conn_id, time_ns), data, Seq::empty());
                lemma_message_header_fields(conn_id, time_ns);
            },
        }
    }
}

/// The offset of an index entry lies within the chunk's data.
proof fn lemma_offset_within(items: Seq<ChunkItem>, k: int)
    requires
        items_bytes(items).len() <= u32::MAX,
        0 <= k < pending_of(items).len(),
    ensures
        pending_of(items)[k].offset < items_bytes(items).len(),
    decreases items.len(),
{
    let pre = items.drop_last();
    crate::format::lemma_le_lengths();
    assert(items_bytes(items) == items_bytes(pre) + item_bytes(items.last()));
    if k < pending_of(pre).len() {
        lemma_offset_within(pre, k);
    }
}

/// A record taken off the front of some bytes is where those bytes start.
proof fn lemma_parse_record_inverse(bytes: Seq<u8>)
    requires
        parse_record(bytes) is Some,
    ensures
        ({
            let (h, d, rest) = parse_record(bytes).unwrap();
            &&& bytes == crate::format::record(h, d) + rest
            &&& h.len() <= u32::MAX
            &&& d.len() <= u32::MAX
        }),
{
    vstd::bytes::lemma_auto_spec_u32_to_from_le_bytes();
    let (h, d, rest) = parse_record(bytes).unwrap();
    let hl = read_u32(bytes) as int;
    let dl = read_u32(bytes.skip(4 + hl)) as int;
    assert(bytes.take(4).len() == 4);
    assert(le32(hl as u32) == bytes.take(4));
    assert(bytes.skip(4 + hl).take(4).len() == 4);
    assert(le32(dl as u32) == bytes.skip(4 + hl).take(4));
    assert(bytes =~= crate::format::record(h, d) + rest);
}

/// Every message written, in order: those of the completed chunks, then
/// those of the current chunk.
pub open spec fn written_messages(s: BagState) -> Seq<MessageRead> {
    chunks_messages(s.chunks) + item_messages(s.items)
}

/// A chunk whose data is empty has no item.
proof fn lemma_empty_chunk(items: Seq<ChunkItem>)
    ensures
        items_bytes(items).len() == 0 ==> items.len() == 0,
{
    if items.len() > 0 {
        crate::format::lemma_le_lengths();
        assert(items_bytes(items) == items_bytes(items.drop_last()) + item_bytes(items.last()));
    }
}

/// Flushing moves the current chunk's messages after those of the
/// completed chunks.
proof fn lemma_flushed_messages(s: BagState)
    ensures
        chunks_messages(s.flushed().chunks) == written_messages(s),
{
    lemma_empty_chunk(s.items);
    if s.chunk().len() > 0 {
        let f = s.flushed();
        assert(f.chunks.drop_last() =~= s.chunks);
    } else {
        assert(item_messages(s.items) =~= Seq::<MessageRead>::empty());
        assert(written_messages(s) =~= chunks_messages(s.chunks));
    }
}

/// Writing a message adds exactly that message, with all its data, after
/// the messages written before: a successful write leaves the writer's
/// messages (those of its completed chunks, then those of its current
/// chunk) as they were, followed by the message with the connection, the
/// time and the data given, whether or not the write flushed the chunk; and
/// the chunk it leaves is empty or smaller than the chunk size (a chunk that
/// reaches the chunk size is flushed).
pub proof fn law_write_adds_the_message(
    pre: BagState,
    post: BagState,
    conn_id: u32,
    time_ns: u64,
    data: Seq<u8>,
)
    requires
        message_outcome(pre, post, Ok(()), conn_id, time_ns, data),
    ensures
        written_messages(post) == written_messages(pre).push(
            MessageRead { conn_id, time_ns: time_ns as int, data },
        ),
        post.chunk_size == pre.chunk_size,
        post.chunk().len() == 0 || post.chunk().len() < pre.chunk_size,
{
    let added = pre.with_message(conn_id, time_ns, data);
    let m = MessageRead { conn_id, time_ns: time_ns as int, data };
    assert(added.items.drop_last() =~= pre.items);
    assert(item_messages(added.items) == item_messages(pre.items).push(m));
    assert(written_messages(added) =~= written_messages(pre).push(m));
    if added.chunk().len() >= pre.chunk_size && added.chunk().len() > 0 {
        lemma_flushed_messages(added);
        let f = added.flushed();
        assert(item_messages(f.items) =~= Seq::<MessageRead>::empty());
        assert(written_messages(f) =~= chunks_messages(f.chunks));
    }
}

/// The layout of a finished bag: the version line, the bag header record,
/// the chunk sections, then the index section.
proof fn lemma_bag_file_layout(f: BagState)
    requires
        f.stream == bag_prefix() + sections(f.chunks),
    ensures
        ({
            let ip = f.stream.len() as u64;
            let cc = f.conns.len() as u32;
            let ch = f.chunks.len() as u32;
            let hf = crate::writer::records::bag_header_fields(ip, cc, ch);
            let pad = spaces((BAG_HEADER_SIZE - 8 - hf.len()) as nat);
            let secs = sections(f.chunks);
            let file = f.bag_file();
            &&& hf.len() == 69
            &&& pad.len() == 4019
            &&& file.len() == 4109 + secs.len() + f.index_section().len()
            &&& f.stream.len() == 4109 + secs.len()
            &&& file.take(version_bytes().len() as int) == version_bytes()
            &&& file.skip(version_bytes().len() as int) == crate::format::record(hf, pad) + (secs
                + f.index_section())
            &&& file.subrange(4109, 4109 + secs.len() as int) == secs
            &&& file.skip(4109 + secs.len() as int) == f.index_section()
        }),
{
    lemma_version_len();
    lemma_bag_header_record_size(0, 0, 0);
    let ip = f.stream.len() as u64;
    let cc = f.conns.len() as u32;
    let ch = f.chunks.len() as u32;
    lemma_bag_header_record_size(ip, cc, ch);
    let secs = sections(f.chunks);
    let idx = f.index_section();
    let file = f.bag_file();
    assert(f.stream.skip(bag_prefix().len() as int) =~= secs);
    assert(file =~= version_bytes() + (bag_header_record(ip, cc, ch) + (secs + idx)));
    assert(file.take(13) =~= version_bytes());
    assert(file.skip(13) =~= bag_header_record(ip, cc, ch) + (secs + idx));
    assert(file.subrange(4109, 4109 + secs.len() as int) =~= secs);
    assert(file.skip(4109 + secs.len() as int) =~= idx);
}

/// What the reader takes from the bag header of a finished bag.
proof fn lemma_bag_header_reads(ip: u64, cc: u32, ch: u32, rest: Seq<u8>)
    ensures
        ({
            let hf = crate::writer::records::bag_header_fields(ip, cc, ch);
            let pad = spaces((BAG_HEADER_SIZE - 8 - hf.len()) as nat);
            &&& parse_record(crate::format::record(hf, pad) + rest) == Some((hf, pad, rest))
            &&& header_value(hf, "op".spec_bytes()) == Some(seq![op::BAG_HEADER])
            &&& read_u64(header_value(hf, "index_pos".spec_bytes()).unwrap()) == ip
            &&& read_u32(header_value(hf, "conn_count".spec_bytes()).unwrap()) == cc
            &&& read_u32(header_value(hf, "chunk_count".spec_bytes()).unwrap()) == ch
            &&& header_value(hf, "index_pos".spec_bytes()) is Some
            &&& header_value(hf, "conn_count".spec_bytes()) is Some
            &&& header_value(hf, "chunk_count".spec_bytes()) is Some
        }),
{
    lemma_bag_header_record_size(ip, cc, ch);
    let hf = crate::writer::records::bag_header_fields(ip, cc, ch);
    let pad = spaces((BAG_HEADER_SIZE - 8 - hf.len()) as nat);
    lemma_parse_record(hf, pad, rest);
    lemma_bag_header_fields(ip, cc, ch);
    lemma_read_u64(ip, Seq::empty());
    assert(crate::format::le64(ip) + Seq::<u8>::empty() =~= crate::format::le64(ip));
    lemma_read_u32(cc, Seq::empty());
    assert(le32(cc) + Seq::<u8>::empty() =~= le32(cc));
    lemma_read_u32(ch, Seq::empty());
    assert(le32(ch) + Seq::<u8>::empty() =~= le32(ch));
}

/// The section of a chunk stands in the sections where those before it end.
proof fn lemma_section_within(chunks: Seq<ChunkSummary>, j: int)
    requires
        0 <= j < chunks.len(),
    ensures
        ({
            let lj = sections(chunks.take(j)).len() as int;
            let sec = chunks[j].section;
            &&& lj + sec.len() <= sections(chunks).len()
            &&& sections(chunks).subrange(lj, lj + sec.len()) == sec
        }),
{
    let list = chunks.map_values(|x: ChunkSummary| x.section);
    assert(chunks.take(j).map_values(|x: ChunkSummary| x.section) =~= list.take(j));
    crate::format::lemma_concat_take(list, j);
    crate::format::lemma_concat_prefix(list, j + 1);
    assert(list[j] == chunks[j].section);
    let lj = crate::format::concat(list.take(j)).len() as int;
    let len = chunks[j].section.len() as int;
    let p = crate::format::concat(list.take(j + 1));
    assert(p == crate::format::concat(list.take(j)) + list[j]);
    assert(crate::format::concat(list).take(p.len() as int) == p);
    assert(p.subrange(lj, lj + len) =~= list[j]);
    assert(crate::format::concat(list).subrange(lj, lj + len) =~= p.subrange(lj, lj + len));
}

/// Each chunk info record locates its chunk: in a finished bag, at the
/// position that the info record of a chunk gives stands that chunk's
/// record, with the chunk's compression, uncompressed size and stored data,
/// before the index position. This holds when the chunk's stored data is at
/// most `u32::MAX` bytes, as its record must say.
pub proof fn law_chunk_positions_locate_chunks(s: BagState, j: int)
    requires
        s.valid(),
        0 <= j < s.flushed().chunks.len(),
        compress(s.compression, items_bytes(s.flushed().chunks[j].items)).len() <= u32::MAX,
    ensures
        ({
            let f = s.flushed();
            let c = f.chunks[j];
            let payload = items_bytes(c.items);
            &&& c.chunk_pos < f.stream.len()
            &&& match parse_record(f.bag_file().skip(c.chunk_pos as int)) {
                Some((h, d, _)) => h == chunk_header(s.compression, payload.len() as u32) && d
                    == compress(s.compression, payload),
                None => false,
            }
        }),
{
    lemma_flushed_sections(s);
    lemma_chunk_at_position(s.flushed(), j);
}

/// A chunk record names the compression the writer was built with and
/// stores its data compressed by it: `none` and the data itself without
/// compression, `lz4` and the LZ4 frame of the data (what lz4 gives), `bz2`
/// and the bzip2 stream of the data (what bzip2 gives). The record found at
/// each chunk's position in a finished bag is such a record.
pub proof fn law_chunk_records_name_their_compression(s: BagState, j: int)
    requires
        s.valid(),
        0 <= j < s.flushed().chunks.len(),
        compress(s.compression, items_bytes(s.flushed().chunks[j].items)).len() <= u32::MAX,
    ensures
        ({
            let f = s.flushed();
            let payload = items_bytes(f.chunks[j].items);
            match parse_record(f.bag_file().skip(f.chunks[j].chunk_pos as int)) {
                Some((h, d, _)) => match s.compression {
                    Compression::Uncompressed => {
                        &&& header_value(h, "compression".spec_bytes()) == Some("none".spec_bytes())
                        &&& d == payload
                    },
                    Compression::Lz4 => {
                        &&& header_value(h, "compression".spec_bytes()) == Some("lz4".spec_bytes())
                        &&& d == lz4_frame(payload)
                    },
                    Compression::Bzip2 => {
                        &&& header_value(h, "compression".spec_bytes()) == Some("bz2".spec_bytes())
                        &&& d == bzip2_stream(payload)
                    },
                },
                None => false,
            }
        }),
{
    law_chunk_positions_locate_chunks(s, j);
    let f = s.flushed();
    let payload = items_bytes(f.chunks[j].items);
    lemma_chunk_header_fields(s.compression, payload.len() as u32);
}

/// The record at a completed chunk's position is that chunk's record.
#[verifier::rlimit(40)]
proof fn lemma_chunk_at_position(f: BagState, j: int)
    requires
        f.stream == bag_prefix() + sections(f.chunks),
        sections_match(f.compression, f.chunks),
        chunks_positioned(f.chunks),
        0 <= j < f.chunks.len(),
        compress(f.compression, items_bytes(f.chunks[j].items)).len() <= u32::MAX,
    ensures
        ({
            let c = f.chunks[j];
            let payload = items_bytes(c.items);
            &&& c.chunk_pos < f.stream.len()
            &&& match parse_record(f.bag_file().skip(c.chunk_pos as int)) {
                Some((h, d, _)) => h == chunk_header(f.compression, payload.len() as u32) && d
                    == compress(f.compression, payload),
                None => false,
            }
        }),
{
    lemma_version_len();
    crate::writer::records::lemma_bag_header_record_size(0, 0, 0);
    lemma_bag_file_layout(f);
    lemma_section_within(f.chunks, j);
    let c = f.chunks[j];
    let lj = sections(f.chunks.take(j)).len() as int;
    assert(c.chunk_pos == 4109 + lj) by {
        reveal(chunks_positioned);
    }
    let secs = sections(f.chunks);
    let len = c.section.len() as int;
    let file = f.bag_file();
    let rest = file.skip(4109 + lj + len);
    assert(file.skip(4109 + lj) =~= c.section + rest) by {
        assert(file.subrange(4109, 4109 + secs.len() as int) == secs);
        assert(secs.subrange(lj, lj + len) == c.section);
    }
    let payload = items_bytes(c.items);
    let h = chunk_header(f.compression, payload.len() as u32);
    let d = compress(f.compression, payload);
    let idx = index_records(pending_of(c.items), c.n_conns);
    assert(c.section == crate::format::record(h, d) + idx);
    lemma_field_names();
    lemma_compression_names(f.compression);
    crate::format::lemma_le_lengths();
    lemma_parse_record(h, d, idx + rest);
    assert(c.section + rest =~= crate::format::record(h, d) + (idx + rest));
}

/// The header and data of the connection record of each connection.
pub open spec fn conn_record_pairs(conns: Seq<ConnSpec>) -> Seq<(Seq<u8>, Seq<u8>)> {
    conns.map_values(
        |c: ConnSpec|
            (
                connection_header(c.id, c.topic),
                connection_data(c.topic, c.msg_type, c.md5sum, c.message_definition, c.caller_id, c.latching),
            ),
    )
}

/// The header and data of the chunk info record of each chunk.
pub open spec fn chunk_info_pairs(chunks: Seq<ChunkSummary>) -> Seq<(Seq<u8>, Seq<u8>)> {
    chunks.map_values(
        |c: ChunkSummary|
            (
                chunk_info_header(c.chunk_pos, c.start_time_ns, c.end_time_ns, c.counts.len()),
                chunk_info_entries_bytes(c.counts),
            ),
    )
}

/// The connection records, one after another, are the bytes of their pairs.
proof fn lemma_conn_record_pairs(conns: Seq<ConnSpec>)
    ensures
        records_bytes(conn_record_pairs(conns)) == crate::format::concat(
            conns.map_values(|c: ConnSpec| conn_record(c)),
        ),
    decreases conns.len(),
{
    if conns.len() > 0 {
        let pre = conns.drop_last();
        lemma_conn_record_pairs(pre);
        assert(conn_record_pairs(conns).drop_last() =~= conn_record_pairs(pre));
        assert(conns.map_values(|c: ConnSpec| conn_record(c)).drop_last() =~= pre.map_values(
            |c: ConnSpec| conn_record(c),
        ));
    }
}

/// The chunk info records, one after another, are the bytes of their pairs.
proof fn lemma_chunk_info_pairs(chunks: Seq<ChunkSummary>)
    ensures
        records_bytes(chunk_info_pairs(chunks)) == crate::format::concat(
            chunks.map_values(|c: ChunkSummary| chunk_info_of(c)),
        ),
    decreases chunks.len(),
{
    if chunks.len() > 0 {
        let pre = chunks.drop_last();
        lemma_chunk_info_pairs(pre);
        assert(chunk_info_pairs(chunks).drop_last() =~= chunk_info_pairs(pre));
        assert(chunks.map_values(|c: ChunkSummary| chunk_info_of(c)).drop_last() =~= pre.map_values(
            |c: ChunkSummary| chunk_info_of(c),
        ));
    }
}

/// The index section of a finished bag reads back: from the index position
/// on, a reader finds one connection record per registered connection, in
/// order, with its id and its topic, then one chunk info record per chunk,
/// in order, with the chunk's position; the data of each record is that of
/// its pair. This holds when each of these records is at most `u32::MAX`
/// bytes long.
#[verifier::rlimit(40)]
pub proof fn law_index_section_reads_back(s: BagState)
    requires
        s.valid(),
        forall|i: int| 0 <= i < s.conns.len() ==> conn_record(#[trigger] s.conns[i]).len() <= u32::MAX,
        forall|j: int|
            0 <= j < s.flushed().chunks.len() ==> chunk_info_of(#[trigger] s.flushed().chunks[j]).len()
                <= u32::MAX,
    ensures
        ({
            let f = s.flushed();
            &&& parse_records(f.bag_file().skip(f.stream.len() as int)) == Some(
                conn_record_pairs(s.conns) + chunk_info_pairs(f.chunks),
            )
            &&& forall|i: int|
                0 <= i < s.conns.len() ==> {
                    let h = (#[trigger] conn_record_pairs(s.conns)[i]).0;
                    &&& header_value(h, "op".spec_bytes()) == Some(seq![op::CONNECTION])
                    &&& header_value(h, "conn".spec_bytes()) == Some(le32(s.conns[i].id))
                    &&& header_value(h, "topic".spec_bytes()) == Some(s.conns[i].topic)
                }
            &&& forall|j: int|
                0 <= j < f.chunks.len() ==> {
                    let h = (#[trigger] chunk_info_pairs(f.chunks)[j]).0;
                    &&& header_value(h, "op".spec_bytes()) == Some(seq![op::CHUNK_INFO])
                    &&& header_value(h, "chunk_pos".spec_bytes()) == Some(le64(f.chunks[j].chunk_pos))
                }
        }),
{
    let f = s.flushed();
    lemma_flushed_sections(s);
    lemma_version_len();
    lemma_bag_file_layout(f);
    let cp = conn_record_pairs(s.conns);
    let ip = chunk_info_pairs(f.chunks);
    lemma_conn_record_pairs(s.conns);
    lemma_chunk_info_pairs(f.chunks);
    lemma_records_bytes_append(cp, ip);
    crate::format::lemma_le_lengths();
    assert forall|i: int| 0 <= i < (cp + ip).len() implies (#[trigger] (cp + ip)[i]).0.len() <= u32::MAX
        && (cp + ip)[i].1.len() <= u32::MAX by {
        if i < cp.len() {
            assert((cp + ip)[i] == cp[i]);
            assert(conn_record(s.conns[i]).len() <= u32::MAX);
        } else {
            assert((cp + ip)[i] == ip[i - cp.len()]);
            assert(chunk_info_of(f.chunks[i - cp.len()]).len() <= u32::MAX);
        }
    }
    lemma_parse_records(cp + ip);
    assert forall|i: int| 0 <= i < s.conns.len() implies {
        let h = (#[trigger] cp[i]).0;
        &&& header_value(h, "op".spec_bytes()) == Some(seq![op::CONNECTION])
        &&& header_value(h, "conn".spec_bytes()) == Some(le32(s.conns[i].id))
        &&& header_value(h, "topic".spec_bytes()) == Some(s.conns[i].topic)
    } by {
        let c = s.conns[i];
        assert(conn_record(c).len() <= u32::MAX);
        lemma_connection_header_fields(c.id, c.topic);
    }
    assert forall|j: int| 0 <= j < f.chunks.len() implies {
        let h = (#[trigger] ip[j]).0;
        &&& header_value(h, "op".spec_bytes()) == Some(seq![op::CHUNK_INFO])
        &&& header_value(h, "chunk_pos".spec_bytes()) == Some(le64(f.chunks[j].chunk_pos))
    } by {
        let c = f.chunks[j];
        lemma_chunk_info_header_fields(c.chunk_pos, c.start_time_ns, c.end_time_ns, c.counts.len());
    }
}

/// What a writer writes is what a reader reads: the bag that finishing a
/// writer produces reads back, for a reader whose decompressor undoes the
/// writer's compressions, with the index position, the number of
/// connections, the number of chunks (kept to 32 bits), and every message
/// written, in order, with its connection, its time and its data. This holds
/// when the bag's positions fit 64 bits, each chunk's data and stored data
/// are at most `u32::MAX` bytes, and every message time has its seconds
/// within 32 bits; the format cannot say more than that. From the index
/// position on, the bag holds the index section: every connection record,
/// then every chunk info record.
#[verifier::rlimit(50)]
pub proof fn law_finished_bag_reads_back(s: BagState, inflate: spec_fn(Seq<u8>, Seq<u8>) -> Option<Seq<u8>>)
    requires
        s.valid(),
        undoes_compression(inflate),
        s.flushed().bag_file().len() <= u64::MAX,
        forall|i: int|
            0 <= i < s.flushed().chunks.len() ==> chunk_readable(
                s.compression,
                #[trigger] s.flushed().chunks[i].items,
            ),
    ensures
        read_bag(inflate, s.flushed().bag_file()) == Some(
            BagRead {
                index_pos: s.flushed().stream.len() as u64,
                conn_count: s.conns.len() as u32,
                chunk_count: s.flushed().chunks.len() as u32,
                messages: written_messages(s),
            },
        ),
        s.flushed().bag_file().skip(s.flushed().stream.len() as int) == s.flushed().index_section(),
{
    let f = s.flushed();
    let c = s.compression;
    lemma_flushed_sections(s);
    lemma_flushed_messages(s);
    lemma_version_len();
    lemma_bag_file_layout(f);
    let ip = f.stream.len() as u64;
    let cc = f.conns.len() as u32;
    let ch = f.chunks.len() as u32;
    let secs = sections(f.chunks);
    lemma_bag_header_reads(ip, cc, ch, secs + f.index_section());
    lemma_sections_records(c, f.chunks);
    lemma_chunks_read_back(inflate, c, f.chunks);
    lemma_parse_records(chunks_records(c, f.chunks));
}

} // verus!
