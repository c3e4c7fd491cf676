//! High-level RosBag writer.
use crate::codec::{bzip2_compress, lz4_compress};
use crate::format::{concat, lemma_concat_push, lemma_concat_take, lemma_write_at_concat, lemma_write_at_inside, write_at};
use crate::writer::error::WriteError;
use crate::writer::model::{
    bag_prefix, chunk_counts, compress, conn_entries, conn_record, items_bytes, max_time, min_time,
    pending_of, version_bytes, initial_state, chunks_positioned, chunks_span_own_messages, lemma_flushed_sections, lemma_version_len, lemma_min_max_same_kind,
    lemma_index_records_grow, index_records, chunk_info_of, sections, chunk_section, BagState, ChunkItem, ChunkSummary, ConnSpec, PendingMessage,
    VERSION_STRING,
};
use crate::writer::records::{
    bag_header_record, lemma_bag_header_record_size, message_data_record, write_bag_header, write_chunk,
    write_chunk_info, write_connection_bytes, index_data_record, write_index_data, write_message_data, ChunkInfoEntry,
    Compression, IndexDataEntry, BAG_HEADER_SIZE,
};
use crate::writer::write_cursor::{fits, wrote, WriteCursor};
use vstd::prelude::*;
use vstd::slice::slice_to_vec;
use vstd::string::StringSliceAdditionalSpecFns;

verus! {

/// The default chunk size: 768 KB.
pub const DEFAULT_CHUNK_SIZE: usize = 768 * 1024;

/// A handle to a registered channel in a RosBag file.
///
/// This struct is returned by [`RosBagWriter::register_connection`] and provides
/// a way to write messages to the bag file.
#[derive(Debug, Clone, Copy, PartialEq, Eq, Hash)]
pub struct Channel {
    conn_id: u32,
}

/// Information about a registered connection.
struct ConnectionInfo {
    id: u32,
    topic: Vec<u8>,
    msg_type: Vec<u8>,
    md5sum: [u8; 16],
    message_definition: Vec<u8>,
    caller_id: Vec<u8>,
    latching: bool,
}

impl ConnectionInfo {
    spec fn view(&self) -> ConnSpec {
        ConnSpec {
            id: self.id,
            topic: self.topic@,
            msg_type: self.msg_type@,
            md5sum: self.md5sum@,
            message_definition: self.message_definition@,
            caller_id: self.caller_id@,
            latching: self.latching,
        }
    }
}

/// Metadata about a completed chunk.
struct ChunkMeta {
    chunk_pos: u64,
    start_time_ns: u64,
    end_time_ns: u64,
    /// Message count of each connection that has messages in the chunk,
    /// in increasing order of connection id.
    conn_counts: Vec<ChunkInfoEntry>,
}

/// Builder for configuring a RosBagWriter.
#[derive(Debug, Clone, Copy)]
pub struct RosBagWriterBuilder {
    /// The compression applied to chunks.
    pub compression: Compression,
    /// The chunk size in bytes at which a chunk is flushed.
    pub chunk_size: usize,
}

/// A writer for creating ROS bag files.
///
/// The bag is written over an in-memory buffer, which [`finish`](Self::finish)
/// hands back.
pub struct RosBagWriter {
    cursor: WriteCursor,
    compression: Compression,
    chunk_size: usize,
    /// Registered connections
    connections: Vec<ConnectionInfo>,
    /// Next connection ID
    next_conn_id: u32,
    /// Current chunk buffer (uncompressed)
    chunk_buffer: Vec<u8>,
    /// Messages in the current chunk (for index generation)
    pending_messages: Vec<PendingMessage>,
    /// Start time of current chunk
    chunk_start_time: Option<u64>,
    /// End time of current chunk
    chunk_end_time: Option<u64>,
    /// Position where current chunk starts
    chunk_start_pos: u64,
    /// Completed chunk metadata
    completed_chunks: Vec<ChunkMeta>,
    /// Whether the writer has been finished
    finished: bool,
    /// What the writer has done, in the terms of its contracts.
    state: Ghost<BagState>,
}

impl View for RosBagWriter {
    type V = BagState;

    closed spec fn view(&self) -> BagState {
        self.state@
    }
}

impl Channel {
    /// The connection id of the channel.
    pub closed spec fn conn(&self) -> u32 {
        self.conn_id
    }

    /// Create a channel handle for the given connection ID.
    pub fn new(conn_id: u32) -> (c: Self)
        ensures
            c.conn() == conn_id,
    {
        Channel { conn_id }
    }

    /// Get the connection ID for this channel.
    pub fn id(&self) -> (r: u32)
        ensures
            r == self.conn(),
    {
        self.conn_id
    }

    /// Write a message to this channel.
    ///
    /// # Arguments
    /// * `writer` - The RosBagWriter that this channel belongs to
    /// * `time_ns` - Timestamp in nanoseconds since UNIX epoch
    /// * `data` - Raw message data
    pub fn write(&self, writer: &mut RosBagWriter, time_ns: u64, data: &[u8]) -> (r: Result<(), WriteError>)
        requires
            old(writer).wf(),
        ensures
            final(writer).wf(),
            message_outcome(old(writer)@, final(writer)@, r, self.conn(), time_ns, data@),
    {
        writer.write_message(self.conn_id, time_ns, data)
    }
}

impl RosBagWriter {
    /// The bytes of the buffer the bag is written over.
    pub closed spec fn buffer(&self) -> Seq<u8> {
        self.cursor.contents()
    }

    /// The state of a well-formed writer is valid.
    pub proof fn lemma_valid(&self)
        requires
            self.wf(),
        ensures
            self@.valid(),
    {
    }

    /// The writer's fields agree with its abstract state.
    pub closed spec fn wf(&self) -> bool {
        let s = self.state@;
        &&& self.cursor.contents() == write_at(s.base, 0, s.stream)
        &&& self.cursor.origin() == 0
        &&& self.cursor.position() == s.stream.len()
        &&& s.stream.len() >= bag_prefix().len()
        &&& s.stream.take(bag_prefix().len() as int) == bag_prefix()
        &&& s.valid()
        &&& self.compression == s.compression
        &&& self.chunk_size == s.chunk_size
        &&& self.connections@.len() == s.conns.len()
        &&& forall|i: int|
            0 <= i < s.conns.len() ==> (#[trigger] self.connections@[i]).view() == s.conns[i]
        &&& forall|i: int| 0 <= i < s.conns.len() ==> (#[trigger] s.conns[i]).id == i
        &&& self.next_conn_id == s.conns.len()
        &&& self.chunk_buffer@ == items_bytes(s.items)
        &&& self.pending_messages@ == pending_of(s.items)
        &&& forall|k: int|
            0 <= k < pending_of(s.items).len() ==> (#[trigger] pending_of(s.items)[k]).conn_id
                < s.conns.len()
        &&& self.chunk_start_time == min_time(s.items)
        &&& self.chunk_end_time == max_time(s.items)
        &&& self.chunk_start_pos == s.stream.len()
        &&& self.completed_chunks@.len() == s.chunks.len()
        &&& forall|i: int|
            0 <= i < s.chunks.len() ==> {
                let m = #[trigger] self.completed_chunks@[i];
                let c = s.chunks[i];
                &&& m.chunk_pos == c.chunk_pos
                &&& m.start_time_ns == c.start_time_ns
                &&& m.end_time_ns == c.end_time_ns
                &&& m.conn_counts@ == c.counts
            }
        &&& self.finished == s.finished
    }
}

/// The connection that `register_connection` records for its arguments.
pub open spec fn conn_spec(
    id: u32,
    topic: &str,
    msg_type: &str,
    md5sum: &[u8; 16],
    message_definition: &str,
    caller_id: &str,
    latching: bool,
) -> ConnSpec {
    ConnSpec {
        id,
        topic: topic.spec_bytes(),
        msg_type: msg_type.spec_bytes(),
        md5sum: md5sum@,
        message_definition: message_definition.spec_bytes(),
        caller_id: caller_id.spec_bytes(),
        latching,
    }
}

/// What flushing the current chunk does: nothing when it is empty; else
/// its section is written (see `BagState::flushed`), unless the section
/// does not fit in the buffer, when nothing changes and the error is an I/O
/// error.
pub open spec fn flush_outcome(pre: BagState, post: BagState, r: Result<(), WriteError>) -> bool {
    if pre.chunk().len() == 0 {
        r is Ok && post == pre
    } else {
        &&& match r {
            Ok(()) => post == pre.flushed(),
            Err(e) => {
                &&& post == pre
                &&& e is IoError
                &&& !fits(pre.stream.len(), pre.section().len())
            },
        }
        &&& fits(pre.stream.len(), pre.section().len()) ==> r is Ok
    }
}

/// What writing a message does: a finished writer and an unknown
/// connection are refused; a message whose record does not fit in a buffer
/// is refused with an I/O error; otherwise the message record is added to the
/// current chunk, and the chunk is flushed once it reaches the chunk size.
pub open spec fn message_outcome(
    pre: BagState,
    post: BagState,
    r: Result<(), WriteError>,
    conn_id: u32,
    time_ns: u64,
    data: Seq<u8>,
) -> bool {
    if pre.finished {
        r == Err::<(), WriteError>(WriteError::InvalidWriterState("writer has been finished"))
            && post == pre
    } else if conn_id >= pre.conns.len() {
        r == Err::<(), WriteError>(WriteError::UnknownConnectionId(conn_id)) && post == pre
    } else if !fits(0, message_data_record(conn_id, time_ns, data).len()) {
        r matches Err(WriteError::IoError(_)) && post == pre
    } else {
        let added = pre.with_message(conn_id, time_ns, data);
        if added.chunk().len() >= pre.chunk_size {
            flush_outcome(added, post, r)
        } else {
            r is Ok && post == added
        }
    }
}

/// The bag of a flushed state is its stream followed by the index section,
/// with the bag header rewritten in place.
proof fn lemma_finished_layout(f: BagState)
    requires
        f.stream.len() >= bag_prefix().len(),
        f.stream.take(bag_prefix().len() as int) == bag_prefix(),
    ensures
        f.bag_file().len() == f.stream.len() + f.index_section().len(),
        f.index_section() == concat(f.conns.map_values(|c: ConnSpec| conn_record(c))) + concat(
            f.chunks.map_values(|c: ChunkSummary| chunk_info_of(c)),
        ),
        ({
            let h = bag_header_record(f.stream.len() as u64, f.conns.len() as u32, f.chunks.len() as u32);
            let full = f.stream + f.index_section();
            &&& write_at(write_at(write_at(f.base, 0, f.stream), f.stream.len(), f.index_section()), 13, h)
                == write_at(f.base, 0, f.bag_file())
        }),
{
    lemma_version_len();
    lemma_bag_header_record_size(0, 0, 0);
    lemma_bag_header_record_size(f.stream.len() as u64, f.conns.len() as u32, f.chunks.len() as u32);
    let h = bag_header_record(f.stream.len() as u64, f.conns.len() as u32, f.chunks.len() as u32);
    let full = f.stream + f.index_section();
    lemma_write_at_concat(f.base, 0, f.stream, f.index_section());
    lemma_write_at_inside(f.base, full, 13, h);
    assert(f.stream.take(bag_prefix().len() as int).take(13) =~= f.stream.take(13));
    assert(bag_prefix().take(13) =~= version_bytes());
    assert(full.take(13) + h + full.skip(4109int) =~= f.bag_file());
}

/// Flushing writes the chunk's section after the stream, which keeps its
/// prefix.
proof fn lemma_flushed_grows(s: BagState)
    requires
        s.stream.len() >= bag_prefix().len(),
        s.stream.take(bag_prefix().len() as int) == bag_prefix(),
    ensures
        s.chunk().len() > 0 ==> s.flushed().stream == s.stream + s.section(),
        s.chunk().len() == 0 ==> s.flushed() == s,
        s.flushed().stream.len() >= bag_prefix().len(),
        s.flushed().stream.take(bag_prefix().len() as int) == bag_prefix(),
{
    if s.chunk().len() > 0 {
        assert((s.stream + s.section()).take(bag_prefix().len() as int) =~= s.stream.take(
            bag_prefix().len() as int,
        ));
    }
}

/// What finishing a writer gives: a finished writer hands back its buffer as
/// it is; otherwise the current chunk is flushed and the buffer holds the
/// complete bag (`BagState::bag_file`) written from its start, unless the
/// bag does not fit in a buffer, when the error is an I/O error.
pub open spec fn finish_outcome(s: BagState, r: Result<Vec<u8>, WriteError>) -> bool {
    if s.finished {
        r matches Ok(v) && v@ == write_at(s.base, 0, s.stream)
    } else {
        &&& match r {
            Ok(v) => v@ == write_at(s.base, 0, s.flushed().bag_file()),
            Err(e) => e is IoError && !fits(0, s.flushed().bag_file().len()),
        }
        &&& fits(0, s.flushed().bag_file().len()) ==> r is Ok
    }
}

impl Default for RosBagWriterBuilder {
    fn default() -> (b: Self)
        ensures
            b.compression == Compression::Uncompressed,
            b.chunk_size == DEFAULT_CHUNK_SIZE,
    {
        RosBagWriterBuilder { compression: Compression::Uncompressed, chunk_size: DEFAULT_CHUNK_SIZE }
    }
}

impl RosBagWriterBuilder {
    /// Create a new builder with default settings.
    pub fn new() -> (b: Self)
        ensures
            b.compression == Compression::Uncompressed,
            b.chunk_size == DEFAULT_CHUNK_SIZE,
    {
        Self::default()
    }

    /// Set the compression type for chunks.
    pub fn compression(self, compression: Compression) -> (b: Self)
        ensures
            b.compression == compression,
            b.chunk_size == self.chunk_size,
    {
        let mut b = self;
        b.compression = compression;
        b
    }

    /// Set the maximum chunk size in bytes before flushing.
    pub fn chunk_size(self, size: usize) -> (b: Self)
        ensures
            b.compression == self.compression,
            b.chunk_size == size,
    {
        let mut b = self;
        b.chunk_size = size;
        b
    }

    /// Create a RosBagWriter writing over the given buffer from its start, as
    /// over a `std::io::Cursor` of it.
    pub fn build(self, writer: Vec<u8>) -> (r: Result<RosBagWriter, WriteError>)
        ensures
            r matches Ok(w) && w.wf() && w@ == initial_state(writer@, self.compression, self.chunk_size),
    {
        RosBagWriter::new_with_config(writer, self.compression, self.chunk_size)
    }
}

impl RosBagWriter {
    /// Create a new RosBagWriter with custom configuration.
    fn new_with_config(writer: Vec<u8>, compression: Compression, chunk_size: usize) -> (r: Result<Self, WriteError>)
        ensures
            r matches Ok(w) && w.wf() && w@ == initial_state(writer@, compression, chunk_size),
    {
        proof {
            lemma_version_len();
            lemma_bag_header_record_size(0, 0, 0);
            reveal(chunks_positioned);
            reveal(chunks_span_own_messages);
        }
        let mut cursor = WriteCursor::at_start(writer);
        // Write version string
        cursor.write_bytes(VERSION_STRING.as_bytes())?;
        // Write placeholder bag header (will be updated in finish())
        write_bag_header(&mut cursor, 0, 0, 0)?;
        proof {
            lemma_write_at_concat(writer@, 0, version_bytes(), bag_header_record(0, 0, 0));
            assert(bag_prefix().take(bag_prefix().len() as int) =~= bag_prefix());
        }
        let chunk_start_pos = cursor.pos();
        Ok(
            RosBagWriter {
                cursor,
                compression,
                chunk_size,
                connections: Vec::new(),
                next_conn_id: 0,
                chunk_buffer: Vec::new(),
                pending_messages: Vec::new(),
                chunk_start_time: None,
                chunk_end_time: None,
                chunk_start_pos,
                completed_chunks: Vec::new(),
                finished: false,
                state: Ghost(initial_state(writer@, compression, chunk_size)),
            },
        )
    }

    /// Register a new connection (topic) and return a [`Channel`] handle.
    ///
    /// This must be called before writing messages for a topic.
    pub fn register_connection(
        &mut self,
        topic: &str,
        msg_type: &str,
        md5sum: &[u8; 16],
        message_definition: &str,
        caller_id: &str,
        latching: bool,
    ) -> (r: Result<Channel, WriteError>)
        requires
            old(self).wf(),
            !old(self)@.finished ==> old(self)@.conns.len() < u32::MAX,
        ensures
            final(self).wf(),
            old(self)@.finished ==> r == Err::<Channel, WriteError>(
                WriteError::InvalidWriterState("writer has been finished"),
            ) && final(self)@ == old(self)@,
            !old(self)@.finished ==> {
                let c = conn_spec(
                    old(self)@.conns.len() as u32,
                    topic,
                    msg_type,
                    md5sum,
                    message_definition,
                    caller_id,
                    latching,
                );
                if fits(0, conn_record(c).len()) {
                    &&& r matches Ok(ch) && ch.conn() == c.id
                    &&& r matches Ok(ch) && ch.conn() == old(self)@.conns.len()
                    &&& final(self)@ == old(self)@.registered(c)
                    &&& final(self)@.conns == old(self)@.conns.push(
                        (ConnSpec {
                            id: old(self)@.conns.len() as u32,
                            topic: topic.spec_bytes(),
                            msg_type: msg_type.spec_bytes(),
                            md5sum: md5sum@,
                            message_definition: message_definition.spec_bytes(),
                            caller_id: caller_id.spec_bytes(),
                            latching,
                        }),
                    )
                } else {
                    &&& r matches Err(WriteError::IoError(_))
                    &&& final(self)@ == old(self)@
                }
            },
    {
        if self.finished {
            return Err(WriteError::InvalidWriterState("writer has been finished"));
        }
        let id = self.next_conn_id;
        let ghost c = conn_spec(id, topic, msg_type, md5sum, message_definition, caller_id, latching);
        // Write the connection record for the chunk buffer
        let mut conn_cursor = WriteCursor::new(Vec::new());
        write_connection_bytes(
            &mut conn_cursor,
            id,
            topic.as_bytes(),
            msg_type.as_bytes(),
            md5sum,
            message_definition.as_bytes(),
            caller_id.as_bytes(),
            latching,
        )?;
        let mut rec = conn_cursor.into_inner();
        assert(rec@ =~= conn_record(c));
        self.next_conn_id = id + 1;
        let info = ConnectionInfo {
            id,
            topic: slice_to_vec(topic.as_bytes()),
            msg_type: slice_to_vec(msg_type.as_bytes()),
            md5sum: *md5sum,
            message_definition: slice_to_vec(message_definition.as_bytes()),
            caller_id: slice_to_vec(caller_id.as_bytes()),
            latching,
        };
        assert(info.view() == c);
        self.connections.push(info);
        self.chunk_buffer.append(&mut rec);
        let ghost pre = self.state@;
        self.state = Ghost(pre.registered(c));
        proof {
            assert(pre.registered(c).items.drop_last() =~= pre.items);
            assert(self.connections@[pre.conns.len() as int].view() == c);
        }
        Ok(Channel { conn_id: id })
    }

    /// Write a message to the bag file using a connection ID.
    ///
    /// This is an internal method used by [`Channel::write`].
    pub(crate) fn write_message(&mut self, conn_id: u32, time_ns: u64, data: &[u8]) -> (r: Result<(), WriteError>)
        requires
            old(self).wf(),
        ensures
            final(self).wf(),
            message_outcome(old(self)@, final(self)@, r, conn_id, time_ns, data@),
    {
        if self.finished {
            return Err(WriteError::InvalidWriterState("writer has been finished"));
        }
        // Verify connection exists
        if !self.has_connection(conn_id) {
            return Err(WriteError::UnknownConnectionId(conn_id));
        }
        // Record offset before writing
        let offset = self.chunk_buffer.len() as u32;
        // Write message to chunk buffer
        let mut msg_cursor = WriteCursor::new(Vec::new());
        write_message_data(&mut msg_cursor, conn_id, time_ns, data)?;
        let mut rec = msg_cursor.into_inner();
        assert(rec@ =~= message_data_record(conn_id, time_ns, data@));
        self.chunk_buffer.append(&mut rec);
        // Track the message for indexing
        self.pending_messages.push(PendingMessage { conn_id, time_ns, offset });
        // Update chunk time range
        match (self.chunk_start_time, self.chunk_end_time) {
            (Some(start), Some(end)) => {
                if time_ns < start {
                    self.chunk_start_time = Some(time_ns);
                }
                if time_ns > end {
                    self.chunk_end_time = Some(time_ns);
                }
            },
            _ => {
                self.chunk_start_time = Some(time_ns);
                self.chunk_end_time = Some(time_ns);
            },
        }
        let ghost pre = self.state@;
        self.state = Ghost(pre.with_message(conn_id, time_ns, data@));
        proof {
            assert(self.state@.items.drop_last() =~= pre.items);
            lemma_min_max_same_kind(pre.items);
        }
        // Flush chunk if it exceeds the size threshold
        if self.chunk_buffer.len() >= self.chunk_size {
            self.flush_chunk()?;
        }
        Ok(())
    }

    /// Write the index data records of the current chunk, one per connection
    /// with messages in it, in increasing order of connection id, and return
    /// each such connection's message count.
    ///
    /// The entries are gathered per connection id rather than in a hash map:
    /// the order in which a hash map is walked is left open, so the bytes of
    /// the bag would not be a function of what was written, and no contract
    /// could say which bytes `finish` returns. Readers find a connection's
    /// entries by the `conn` field, whatever the order of the records.
    fn write_index_section(&self, sec: &mut WriteCursor) -> (r: Result<Vec<ChunkInfoEntry>, WriteError>)
        requires
            self.wf(),
            old(sec).offset() == old(sec).contents().len(),
        ensures
            match r {
                Ok(counts) => {
                    &&& counts@ == chunk_counts(pending_of(self@.items), self@.conns.len())
                    &&& final(sec).contents() == old(sec).contents() + index_records(
                        pending_of(self@.items),
                        self@.conns.len(),
                    )
                    &&& final(sec).offset() == final(sec).contents().len()
                },
                Err(e) => {
                    &&& e is IoError
                    &&& !fits(
                        0,
                        old(sec).contents().len() + index_records(
                            pending_of(self@.items),
                            self@.conns.len(),
                        ).len(),
                    )
                },
            },
    {
        let ghost pending = pending_of(self@.items);
        let ghost n = self@.conns.len();
        let ghost start = sec.contents();
        let mut counts: Vec<ChunkInfoEntry> = Vec::new();
        let mut id: u32 = 0;
        while id < self.next_conn_id
            invariant
                self.pending_messages@ == pending,
                pending == pending_of(self@.items),
                start == old(sec).contents(),
                self.next_conn_id == n,
                n == self@.conns.len(),
                id <= n,
                sec.offset() == sec.contents().len(),
                sec.contents() == start + index_records(pending, id as nat),
                counts@ == chunk_counts(pending, id as nat),
            decreases n - id,
        {
            proof {
                lemma_index_records_grow(pending, (id + 1) as nat, n);
            }
            let entries = self.entries_for(id);
            proof {
                assert(((id + 1) - 1) as u32 == id);
                assert(index_records(pending, (id + 1) as nat) == index_records(pending, id as nat) + (
                if entries@.len() > 0 {
                    index_data_record(id, entries@)
                } else {
                    Seq::empty()
                }));
            }
            if entries.len() > 0 {
                let w = write_index_data(sec, id, entries.as_slice());
                if let Err(e) = w {
                    return Err(e);
                }
                counts.push(ChunkInfoEntry { conn_id: id, count: entries.len() as u32 });
            }
            proof {
                assert(sec.contents() =~= start + index_records(pending, (id + 1) as nat));
            }
            id = id + 1;
        }
        Ok(counts)
    }

    /// Whether a connection with id `conn_id` is registered.
    fn has_connection(&self, conn_id: u32) -> (r: bool)
        requires
            self.wf(),
        ensures
            r == (conn_id < self@.conns.len()),
    {
        let mut found = false;
        let mut i: usize = 0;
        while i < self.connections.len()
            invariant
                self.wf(),
                i <= self.connections@.len(),
                found <==> exists|k: int| 0 <= k < i && self.connections@[k].id == conn_id,
            decreases self.connections@.len() - i,
        {
            if self.connections[i].id == conn_id {
                found = true;
            }
            i = i + 1;
        }
        proof {
            if found {
                let k = choose|k: int| 0 <= k < i && self.connections@[k].id == conn_id;
                assert(self.connections@[k].view() == self@.conns[k]);
            } else if conn_id < self@.conns.len() {
                assert(self.connections@[conn_id as int].view() == self@.conns[conn_id as int]);
            }
        }
        found
    }

    /// The index entries of connection `id` in the current chunk.
    fn entries_for(&self, id: u32) -> (r: Vec<IndexDataEntry>)
        requires
            self.pending_messages@ == pending_of(self@.items),
        ensures
            r@ == conn_entries(pending_of(self@.items), id),
    {
        let mut entries: Vec<IndexDataEntry> = Vec::new();
        let mut j: usize = 0;
        while j < self.pending_messages.len()
            invariant
                j <= self.pending_messages@.len(),
                entries@ == conn_entries(self.pending_messages@.take(j as int), id),
            decreases self.pending_messages@.len() - j,
        {
            let m = self.pending_messages[j];
            proof {
                assert(self.pending_messages@.take(j + 1).drop_last() =~= self.pending_messages@.take(j as int));
            }
            if m.conn_id == id {
                entries.push(IndexDataEntry { time_ns: m.time_ns, offset: m.offset });
            }
            j = j + 1;
        }
        assert(self.pending_messages@.take(j as int) =~= self.pending_messages@);
        entries
    }

    /// Compress chunk data according to the configured compression type.
    fn compress_chunk(&self, data: &[u8]) -> (r: Result<Vec<u8>, WriteError>)
        ensures
            r is Ok,
            r matches Ok(c) ==> c@ == compress(self.compression, data@),
    {
        match self.compression {
            Compression::Uncompressed => Ok(slice_to_vec(data)),
            Compression::Lz4 => match lz4_compress(data) {
                Ok(c) => Ok(c),
                Err(msg) => Err(WriteError::Lz4CompressionError(msg)),
            },
            Compression::Bzip2 => match bzip2_compress(data) {
                Ok(c) => Ok(c),
                Err(msg) => Err(WriteError::Bzip2CompressionError(msg)),
            },
        }
    }

    /// Flush the current chunk to the file.
    #[verifier::rlimit(60)]
    fn flush_chunk(&mut self) -> (r: Result<(), WriteError>)
        requires
            old(self).wf(),
        ensures
            final(self).wf(),
            flush_outcome(old(self)@, final(self)@, r),
    {
        if self.chunk_buffer.len() == 0 {
            return Ok(());
        }
        let ghost pre = self.state@;
        let ghost pending = pending_of(pre.items);
        let ghost section = pre.section();
        proof {
            lemma_index_records_grow(pending, 0, pre.conns.len());
        }
        let chunk_pos = self.cursor.pos();
        let uncompressed_size = self.chunk_buffer.len() as u32;
        // Compress the chunk data
        let compressed = self.compress_chunk(self.chunk_buffer.as_slice())?;
        // The chunk record, then one index data record per connection in this chunk
        let mut sec = WriteCursor::new(Vec::new());
        write_chunk(&mut sec, self.compression, uncompressed_size, compressed.as_slice())?;
        let counts = self.write_index_section(&mut sec)?;
        assert(sec.contents() == section);
        let bytes = sec.into_inner();
        self.cursor.write_bytes(bytes.as_slice())?;
        proof {
            lemma_write_at_concat(pre.base, 0, pre.stream, section);
        }
        // Store chunk metadata for the index section
        let start_time_ns = match self.chunk_start_time {
            Some(t) => t,
            None => 0,
        };
        let end_time_ns = match self.chunk_end_time {
            Some(t) => t,
            None => 0,
        };
        self.completed_chunks.push(ChunkMeta { chunk_pos, start_time_ns, end_time_ns, conn_counts: counts });
        // Reset chunk state
        self.chunk_buffer.clear();
        self.pending_messages.clear();
        self.chunk_start_time = None;
        self.chunk_end_time = None;
        self.chunk_start_pos = self.cursor.pos();
        self.state = Ghost(pre.flushed());
        proof {
            lemma_flushed_sections(pre);
            assert(pre.flushed().stream.len() == self.cursor.position());
            let post = pre.flushed();
            assert(post.stream.take(bag_prefix().len() as int) =~= pre.stream.take(bag_prefix().len() as int));
            assert(pending_of(post.items) =~= Seq::<PendingMessage>::empty());
        }
        Ok(())
    }

    /// Write the connection record of every registered connection, in order.
    fn write_connection_records(&self, idx: &mut WriteCursor) -> (r: Result<(), WriteError>)
        requires
            self.wf(),
            old(idx).offset() == old(idx).contents().len(),
        ensures
            ({
                let recs = concat(self@.conns.map_values(|c: ConnSpec| conn_record(c)));
                match r {
                    Ok(()) => {
                        &&& final(idx).contents() == old(idx).contents() + recs
                        &&& final(idx).offset() == final(idx).contents().len()
                    },
                    Err(e) => e is IoError && !fits(0, old(idx).contents().len() + recs.len()),
                }
            }),
    {
        let ghost recs = self@.conns.map_values(|c: ConnSpec| conn_record(c));
        let ghost start = idx.contents();
        let mut i: usize = 0;
        while i < self.connections.len()
            invariant
                start == old(idx).contents(),
                recs == self@.conns.map_values(|c: ConnSpec| conn_record(c)),
                self.connections@.len() == recs.len(),
                forall|k: int|
                    0 <= k < self@.conns.len() ==> (#[trigger] self.connections@[k]).view()
                        == self@.conns[k],
                i <= recs.len(),
                idx.offset() == idx.contents().len(),
                idx.contents() == start + concat(recs.take(i as int)),
            decreases recs.len() - i,
        {
            proof {
                lemma_concat_take(recs, i as int);
                assert(self.connections@[i as int].view() == self@.conns[i as int]);
            }
            let c = &self.connections[i];
            write_connection_bytes(
                idx,
                c.id,
                c.topic.as_slice(),
                c.msg_type.as_slice(),
                &c.md5sum,
                c.message_definition.as_slice(),
                c.caller_id.as_slice(),
                c.latching,
            )?;
            proof {
                assert(start + concat(recs.take(i + 1)) =~= start + concat(recs.take(i as int)) + recs[i as int]);
            }
            i = i + 1;
        }
        assert(recs.take(recs.len() as int) =~= recs);
        Ok(())
    }

    /// Write the chunk info record of every completed chunk, in order.
    #[verifier::rlimit(30)]
    fn write_chunk_infos(&self, idx: &mut WriteCursor) -> (r: Result<(), WriteError>)
        requires
            self.wf(),
            old(idx).offset() == old(idx).contents().len(),
        ensures
            ({
                let infos = concat(self@.chunks.map_values(|c: ChunkSummary| chunk_info_of(c)));
                match r {
                    Ok(()) => {
                        &&& final(idx).contents() == old(idx).contents() + infos
                        &&& final(idx).offset() == final(idx).contents().len()
                    },
                    Err(e) => e is IoError && !fits(0, old(idx).contents().len() + infos.len()),
                }
            }),
    {
        let ghost infos = self@.chunks.map_values(|c: ChunkSummary| chunk_info_of(c));
        let ghost start = idx.contents();
        let mut j: usize = 0;
        while j < self.completed_chunks.len()
            invariant
                start == old(idx).contents(),
                infos == self@.chunks.map_values(|c: ChunkSummary| chunk_info_of(c)),
                self.completed_chunks@.len() == infos.len(),
                forall|i: int|
                    0 <= i < self@.chunks.len() ==> {
                        let m = #[trigger] self.completed_chunks@[i];
                        let c = self@.chunks[i];
                        &&& m.chunk_pos == c.chunk_pos
                        &&& m.start_time_ns == c.start_time_ns
                        &&& m.end_time_ns == c.end_time_ns
                        &&& m.conn_counts@ == c.counts
                    },
                j <= infos.len(),
                idx.offset() == idx.contents().len(),
                idx.contents() == start + concat(infos.take(j as int)),
            decreases infos.len() - j,
        {
            proof {
                lemma_concat_take(infos, j as int);
            }
            let ch = &self.completed_chunks[j];
            write_chunk_info(
                idx,
                ch.chunk_pos,
                ch.start_time_ns,
                ch.end_time_ns,
                ch.conn_counts.as_slice(),
            )?;
            proof {
                assert(start + concat(infos.take(j + 1)) =~= start + concat(infos.take(j as int)) + infos[j as int]);
            }
            j = j + 1;
        }
        assert(infos.take(infos.len() as int) =~= infos);
        Ok(())
    }

    /// Internal method to finalize the bag file: flush the current chunk,
    /// write the index section, and rewrite the bag header with the index
    /// position and the counts.
    #[verifier::rlimit(40)]
    fn finalize(&mut self) -> (r: Result<(), WriteError>)
        requires
            old(self).wf(),
        ensures
            old(self)@.finished ==> r is Ok && *final(self) == *old(self),
            !old(self)@.finished ==> {
                let f = old(self)@.flushed();
                &&& match r {
                    Ok(()) => {
                        &&& final(self).buffer() == write_at(old(self)@.base, 0, f.bag_file())
                        &&& final(self)@ == BagState { finished: true, ..f }
                    },
                    Err(e) => e is IoError && !fits(0, f.bag_file().len()),
                }
                &&& fits(0, f.bag_file().len()) ==> r is Ok
            },
    {
        if self.finished {
            return Ok(());
        }
        proof {
            lemma_version_len();
            lemma_bag_header_record_size(0, 0, 0);
        }
        let ghost s0 = self@;
        proof {
            lemma_flushed_grows(s0);
            lemma_finished_layout(s0.flushed());
        }
        // Flush any remaining chunk data
        self.flush_chunk()?;
        let ghost f = self@;
        assert(f == s0.flushed());
        // Record the index section start position
        let index_pos = self.cursor.pos();
        let mut idx = WriteCursor::new(Vec::new());
        self.write_connection_records(&mut idx)?;
        self.write_chunk_infos(&mut idx)?;
        let bytes = idx.into_inner();
        assert(bytes@ == f.index_section());
        self.cursor.write_bytes(bytes.as_slice())?;
        proof {
            lemma_write_at_concat(f.base, 0, f.stream, f.index_section());
        }
        // Seek back and update the bag header
        let conn_count = self.connections.len() as u32;
        let chunk_count = self.completed_chunks.len() as u32;
        self.cursor.seek(VERSION_STRING.len() as u64)?;
        proof {
            lemma_bag_header_record_size(index_pos, conn_count, chunk_count);
        }
        write_bag_header(&mut self.cursor, index_pos, conn_count, chunk_count)?;
        proof {
            lemma_finished_layout(f);
        }
        self.cursor.flush()?;
        self.finished = true;
        self.state = Ghost(BagState { finished: true, ..f });
        Ok(())
    }

    /// Finish writing the bag file and return the underlying buffer.
    ///
    /// This flushes any remaining chunk data, writes the index section,
    /// and updates the bag header with final values.
    pub fn finish(self) -> (r: Result<Vec<u8>, WriteError>)
        requires
            self.wf(),
        ensures
            finish_outcome(self@, r),
    {
        let mut w = self;
        w.finalize()?;
        Ok(w.cursor.into_inner())
    }
}

} // verus!
