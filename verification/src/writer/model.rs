//! The abstract state of a bag writer, and the bytes that state stands for.
use crate::codec::{bzip2_stream, lz4_frame};
use crate::format::{concat, record};
use crate::writer::records::{
    bag_header_record, chunk_info_record, chunk_record, connection_record, index_data_record,
    message_data_record, ChunkInfoEntry, Compression, IndexDataEntry, BAG_HEADER_SIZE,
};
use vstd::prelude::*;
use vstd::string::StringSliceAdditionalSpecFns;

verus! {

/// The version line that opens every bag file.
pub const VERSION_STRING: &'static str = "#ROSBAG V2.0\n";

/// The bytes of the version line.
pub open spec fn version_bytes() -> Seq<u8> {
    VERSION_STRING.spec_bytes()
}

/// A registered connection, as the writer records it.
pub struct ConnSpec {
    pub id: u32,
    pub topic: Seq<u8>,
    pub msg_type: Seq<u8>,
    pub md5sum: Seq<u8>,
    pub message_definition: Seq<u8>,
    pub caller_id: Seq<u8>,
    pub latching: bool,
}

/// The connection record of a registered connection.
pub open spec fn conn_record(c: ConnSpec) -> Seq<u8> {
    connection_record(c.id, c.topic, c.msg_type, c.md5sum, c.message_definition, c.caller_id, c.latching)
}

/// What a chunk holds, in the order it was written: connection records and
/// message data records.
pub enum ChunkItem {
    Connection(ConnSpec),
    Message { conn_id: u32, time_ns: u64, data: Seq<u8> },
}

/// The record of an item of a chunk.
pub open spec fn item_bytes(item: ChunkItem) -> Seq<u8> {
    match item {
        ChunkItem::Connection(c) => conn_record(c),
        ChunkItem::Message { conn_id, time_ns, data } => message_data_record(conn_id, time_ns, data),
    }
}

/// The uncompressed data of a chunk: the records of its items, in order.
pub open spec fn items_bytes(items: Seq<ChunkItem>) -> Seq<u8>
    decreases items.len(),
{
    if items.len() == 0 {
        Seq::empty()
    } else {
        items_bytes(items.drop_last()) + item_bytes(items.last())
    }
}

/// A message in the current chunk, kept for the chunk's index: its
/// connection, its time, and the offset of its record in the chunk data.
#[derive(Debug, Clone, Copy)]
pub struct PendingMessage {
    pub conn_id: u32,
    pub time_ns: u64,
    pub offset: u32,
}

/// The messages of a chunk, each with the offset (kept to 32 bits) of its
/// record in the chunk's data.
pub open spec fn pending_of(items: Seq<ChunkItem>) -> Seq<PendingMessage>
    decreases items.len(),
{
    if items.len() == 0 {
        Seq::empty()
    } else {
        let rest = pending_of(items.drop_last());
        match items.last() {
            ChunkItem::Connection(_) => rest,
            ChunkItem::Message { conn_id, time_ns, data } => rest.push(
                PendingMessage {
                    conn_id,
                    time_ns,
                    offset: items_bytes(items.drop_last()).len() as u32,
                },
            ),
        }
    }
}

/// The earliest message time of a chunk, if it has a message.
pub open spec fn min_time(items: Seq<ChunkItem>) -> Option<u64>
    decreases items.len(),
{
    if items.len() == 0 {
        None
    } else {
        let rest = min_time(items.drop_last());
        match items.last() {
            ChunkItem::Connection(_) => rest,
            ChunkItem::Message { time_ns, .. } => match rest {
                None => Some(time_ns),
                Some(t) => Some(if time_ns < t { time_ns } else { t }),
            },
        }
    }
}

/// The latest message time of a chunk, if it has a message.
pub open spec fn max_time(items: Seq<ChunkItem>) -> Option<u64>
    decreases items.len(),
{
    if items.len() == 0 {
        None
    } else {
        let rest = max_time(items.drop_last());
        match items.last() {
            ChunkItem::Connection(_) => rest,
            ChunkItem::Message { time_ns, .. } => match rest {
                None => Some(time_ns),
                Some(t) => Some(if time_ns > t { time_ns } else { t }),
            },
        }
    }
}

/// A chunk has an earliest message time exactly when it has a latest one.
pub proof fn lemma_min_max_same_kind(items: Seq<ChunkItem>)
    ensures
        min_time(items) is Some <==> max_time(items) is Some,
    decreases items.len(),
{
    if items.len() > 0 {
        lemma_min_max_same_kind(items.drop_last());
    }
}

/// The time range of a chunk covers its messages: a chunk with a message
/// has an earliest and a latest time, and every message time of the chunk
/// lies between them.
pub proof fn law_chunk_time_range_covers_messages(items: Seq<ChunkItem>, k: int)
    requires
        0 <= k < pending_of(items).len(),
    ensures
        min_time(items) is Some,
        max_time(items) is Some,
        min_time(items).unwrap() <= pending_of(items)[k].time_ns <= max_time(items).unwrap(),
    decreases items.len(),
{
    let pre = items.drop_last();
    if k < pending_of(pre).len() {
        law_chunk_time_range_covers_messages(pre, k);
        match items.last() {
            ChunkItem::Connection(_) => {},
            ChunkItem::Message { .. } => {
                assert(pending_of(items)[k] == pending_of(pre)[k]);
            },
        }
    }
}

/// The earliest and latest times of a chunk are times of its messages, and
/// a chunk has them exactly when it has a message.
proof fn lemma_time_range_attained(items: Seq<ChunkItem>)
    ensures
        min_time(items) is Some <==> pending_of(items).len() > 0,
        min_time(items) is Some ==> exists|k: int|
            0 <= k < pending_of(items).len() && #[trigger] pending_of(items)[k].time_ns
                == min_time(items).unwrap(),
        max_time(items) is Some ==> exists|k: int|
            0 <= k < pending_of(items).len() && #[trigger] pending_of(items)[k].time_ns
                == max_time(items).unwrap(),
    decreases items.len(),
{
    lemma_min_max_same_kind(items);
    if items.len() > 0 {
        let pre = items.drop_last();
        lemma_time_range_attained(pre);
        lemma_min_max_same_kind(pre);
        let p = pending_of(items);
        let pp = pending_of(pre);
        match items.last() {
            ChunkItem::Connection(_) => {},
            ChunkItem::Message { .. } => {
                let n = pp.len() as int;
                assert(p[n].time_ns == p.last().time_ns);
                if min_time(pre) is Some {
                    let k1 = choose|k: int| 0 <= k < pp.len() && #[trigger] pp[k].time_ns == min_time(pre).unwrap();
                    assert(p[k1] == pp[k1]);
                    let k2 = choose|k: int| 0 <= k < pp.len() && #[trigger] pp[k].time_ns == max_time(pre).unwrap();
                    assert(p[k2] == pp[k2]);
                }
            },
        }
    }
}

/// Whether the time range a chunk's info record gives is that of the chunk's
/// own messages: with messages, it starts at the time of one of them and ends
/// at the time of one of them, and every message time lies between; without
/// messages, both times are 0.
pub open spec fn spans_own_messages(c: ChunkSummary) -> bool {
    let p = pending_of(c.items);
    if p.len() == 0 {
        c.start_time_ns == 0 && c.end_time_ns == 0
    } else {
        &&& forall|k: int| 0 <= k < p.len() ==> c.start_time_ns <= #[trigger] p[k].time_ns <= c.end_time_ns
        &&& exists|k: int| 0 <= k < p.len() && #[trigger] p[k].time_ns == c.start_time_ns
        &&& exists|k: int| 0 <= k < p.len() && #[trigger] p[k].time_ns == c.end_time_ns
    }
}

/// Flushing a chunk records the chunk's own items and its own time range,
/// whatever chunks came before it.
pub proof fn law_flush_records_own_time_range(s: BagState)
    requires
        s.chunk().len() > 0,
    ensures
        s.flushed().chunks.last().items == s.items,
        spans_own_messages(s.flushed().chunks.last()),
{
    lemma_time_range_attained(s.items);
    lemma_min_max_same_kind(s.items);
    let c = s.flushed().chunks.last();
    let p = pending_of(s.items);
    if p.len() > 0 {
        assert forall|k: int| 0 <= k < p.len() implies c.start_time_ns <= #[trigger] p[k].time_ns
            <= c.end_time_ns by {
            law_chunk_time_range_covers_messages(s.items, k);
        }
    }
}

/// Every completed chunk spans its own messages.
#[verifier::opaque]
pub open spec fn chunks_span_own_messages(chunks: Seq<ChunkSummary>) -> bool {
    forall|j: int| 0 <= j < chunks.len() ==> spans_own_messages(#[trigger] chunks[j])
}

/// The index entries of connection `id`: its messages, in order.
pub open spec fn conn_entries(pending: Seq<PendingMessage>, id: u32) -> Seq<IndexDataEntry>
    decreases pending.len(),
{
    if pending.len() == 0 {
        Seq::empty()
    } else {
        let rest = conn_entries(pending.drop_last(), id);
        let m = pending.last();
        if m.conn_id == id {
            rest.push(IndexDataEntry { time_ns: m.time_ns, offset: m.offset })
        } else {
            rest
        }
    }
}

/// The index entries of a connection are its messages in the order they
/// were written: each message of the connection, in turn, with its time and
/// the offset of its record, and no other entry.
pub proof fn law_index_entries_in_written_order(pending: Seq<PendingMessage>, id: u32)
    ensures
        conn_entries(pending, id) == pending.filter(|m: PendingMessage| m.conn_id == id).map_values(
            |m: PendingMessage| IndexDataEntry { time_ns: m.time_ns, offset: m.offset },
        ),
    decreases pending.len(),
{
    reveal_with_fuel(Seq::filter, 1);
    if pending.len() > 0 {
        let pre = pending.drop_last();
        law_index_entries_in_written_order(pre, id);
        let f = pre.filter(|m: PendingMessage| m.conn_id == id);
        let g = |m: PendingMessage| IndexDataEntry { time_ns: m.time_ns, offset: m.offset };
        if pending.last().conn_id == id {
            assert(f.push(pending.last()).map_values(g) =~= f.map_values(g).push(g(pending.last())));
        }
    } else {
        assert(pending.filter(|m: PendingMessage| m.conn_id == id).map_values(
            |m: PendingMessage| IndexDataEntry { time_ns: m.time_ns, offset: m.offset },
        ) =~= Seq::<IndexDataEntry>::empty());
    }
}

/// The index data records of a chunk: one per connection id below `n` that
/// has messages in the chunk, in increasing order of id.
pub open spec fn index_records(pending: Seq<PendingMessage>, n: nat) -> Seq<u8>
    decreases n,
{
    if n == 0 {
        Seq::empty()
    } else {
        let id = (n - 1) as u32;
        let entries = conn_entries(pending, id);
        index_records(pending, (n - 1) as nat) + (if entries.len() > 0 {
            index_data_record(id, entries)
        } else {
            Seq::empty()
        })
    }
}

/// The per-connection message counts of a chunk, for connection ids below
/// `n` that have messages, in increasing order of id.
pub open spec fn chunk_counts(pending: Seq<PendingMessage>, n: nat) -> Seq<ChunkInfoEntry>
    decreases n,
{
    if n == 0 {
        Seq::empty()
    } else {
        let id = (n - 1) as u32;
        let entries = conn_entries(pending, id);
        let rest = chunk_counts(pending, (n - 1) as nat);
        if entries.len() > 0 {
            rest.push(ChunkInfoEntry { conn_id: id, count: entries.len() as u32 })
        } else {
            rest
        }
    }
}

/// The sum of the counts of chunk info entries.
pub open spec fn counts_total(entries: Seq<ChunkInfoEntry>) -> int
    decreases entries.len(),
{
    if entries.len() == 0 {
        0
    } else {
        counts_total(entries.drop_last()) + entries.last().count
    }
}

/// The number of index entries of the connection ids below `n`.
spec fn entries_total(pending: Seq<PendingMessage>, n: nat) -> int
    decreases n,
{
    if n == 0 {
        0
    } else {
        entries_total(pending, (n - 1) as nat) + conn_entries(pending, (n - 1) as u32).len()
    }
}

/// A connection has no more index entries than there are messages.
proof fn lemma_conn_entries_len(pending: Seq<PendingMessage>, id: u32)
    ensures
        conn_entries(pending, id).len() <= pending.len(),
    decreases pending.len(),
{
    if pending.len() > 0 {
        lemma_conn_entries_len(pending.drop_last(), id);
    }
}

/// The counts of a chunk info record are the numbers of index entries.
proof fn lemma_counts_total(pending: Seq<PendingMessage>, n: nat)
    requires
        pending.len() <= u32::MAX,
        n <= u32::MAX + 1,
    ensures
        counts_total(chunk_counts(pending, n)) == entries_total(pending, n),
    decreases n,
{
    if n > 0 {
        let id = (n - 1) as u32;
        lemma_counts_total(pending, (n - 1) as nat);
        lemma_conn_entries_len(pending, id);
        let rest = chunk_counts(pending, (n - 1) as nat);
        if conn_entries(pending, id).len() > 0 {
            let e = ChunkInfoEntry { conn_id: id, count: conn_entries(pending, id).len() as u32 };
            assert(rest.push(e).drop_last() =~= rest);
        }
    }
}

/// One more message adds one index entry to the connection ids below `n`
/// when its own id is below `n`.
proof fn lemma_entries_total_push(pending: Seq<PendingMessage>, n: nat)
    requires
        pending.len() > 0,
        n <= u32::MAX + 1,
    ensures
        entries_total(pending, n) == entries_total(pending.drop_last(), n) + (if pending.last().conn_id
            < n {
            1int
        } else {
            0int
        }),
    decreases n,
{
    if n > 0 {
        lemma_entries_total_push(pending, (n - 1) as nat);
    }
}

/// The index entries of the connection ids below `n` are all the messages
/// when every message has such an id.
proof fn lemma_entries_total_all(pending: Seq<PendingMessage>, n: nat)
    requires
        n <= u32::MAX + 1,
        forall|k: int| 0 <= k < pending.len() ==> (#[trigger] pending[k]).conn_id < n,
    ensures
        entries_total(pending, n) == pending.len(),
    decreases pending.len(),
{
    if pending.len() == 0 {
        assert(pending =~= Seq::<PendingMessage>::empty());
        lemma_entries_total_empty(n);
    } else {
        let pre = pending.drop_last();
        assert forall|k: int| 0 <= k < pre.len() implies (#[trigger] pre[k]).conn_id < n by {
            assert(pre[k] == pending[k]);
        }
        lemma_entries_total_all(pre, n);
        lemma_entries_total_push(pending, n);
        assert(pending.last() == pending[pending.len() - 1]);
    }
}

/// Without messages there are no index entries.
proof fn lemma_entries_total_empty(n: nat)
    ensures
        entries_total(Seq::empty(), n) == 0,
    decreases n,
{
    if n > 0 {
        lemma_entries_total_empty((n - 1) as nat);
    }
}

/// The message counts of a chunk info record add up to the number of
/// messages of the chunk, when every message is on a registered connection
/// and the chunk has at most `u32::MAX` messages.
pub proof fn law_chunk_counts_add_up(items: Seq<ChunkItem>, n: nat)
    requires
        n <= u32::MAX + 1,
        pending_of(items).len() <= u32::MAX,
        forall|k: int|
            0 <= k < pending_of(items).len() ==> (#[trigger] pending_of(items)[k]).conn_id < n,
    ensures
        counts_total(chunk_counts(pending_of(items), n)) == pending_of(items).len(),
{
    lemma_counts_total(pending_of(items), n);
    lemma_entries_total_all(pending_of(items), n);
}

/// The index records for fewer connections are no longer.
pub proof fn lemma_index_records_grow(pending: Seq<PendingMessage>, m: nat, n: nat)
    requires
        m <= n,
    ensures
        index_records(pending, m).len() <= index_records(pending, n).len(),
    decreases n,
{
    if m < n {
        lemma_index_records_grow(pending, m, (n - 1) as nat);
    }
}

/// The stored form of a chunk's data under `compression`.
pub open spec fn compress(compression: Compression, data: Seq<u8>) -> Seq<u8> {
    match compression {
        Compression::Uncompressed => data,
        Compression::Lz4 => lz4_frame(data),
        Compression::Bzip2 => bzip2_stream(data),
    }
}

/// What flushing a chunk writes: the chunk record, then its index data records.
pub open spec fn chunk_section(compression: Compression, items: Seq<ChunkItem>, n_conns: nat) -> Seq<u8> {
    let payload = items_bytes(items);
    chunk_record(compression, payload.len() as u32, compress(compression, payload)) + index_records(
        pending_of(items),
        n_conns,
    )
}

/// A completed chunk, as the index section describes it.
pub struct ChunkSummary {
    /// Where the chunk record starts in the file.
    pub chunk_pos: u64,
    /// Earliest message time (0 when the chunk has no message).
    pub start_time_ns: u64,
    /// Latest message time (0 when the chunk has no message).
    pub end_time_ns: u64,
    /// Per-connection message counts.
    pub counts: Seq<ChunkInfoEntry>,
    /// The chunk's items, in order.
    pub items: Seq<ChunkItem>,
    /// How many connections were registered when the chunk was written.
    pub n_conns: nat,
    /// The bytes written for the chunk.
    pub section: Seq<u8>,
}

/// The chunk info record of a completed chunk.
pub open spec fn chunk_info_of(c: ChunkSummary) -> Seq<u8> {
    chunk_info_record(c.chunk_pos, c.start_time_ns, c.end_time_ns, c.counts)
}

/// The state of a bag writer.
pub struct BagState {
    /// The buffer the bag is written over, as it was given.
    pub base: Seq<u8>,
    /// The bytes written from the start of the buffer so far.
    pub stream: Seq<u8>,
    pub compression: Compression,
    pub chunk_size: usize,
    /// Registered connections; connection `i` has id `i`.
    pub conns: Seq<ConnSpec>,
    /// The items of the chunk being filled.
    pub items: Seq<ChunkItem>,
    /// Chunks written so far.
    pub chunks: Seq<ChunkSummary>,
    pub finished: bool,
}

/// The bytes of the version line are its thirteen ASCII characters.
pub proof fn lemma_version_len()
    ensures
        version_bytes().len() == 13,
{
    reveal_strlit("#ROSBAG V2.0\n");
    vstd::string::is_ascii_spec_bytes(VERSION_STRING);
}

/// The state of a new writer over `base`: the version line and a
/// placeholder bag header are written, nothing else.
pub open spec fn initial_state(base: Seq<u8>, compression: Compression, chunk_size: usize) -> BagState {
    BagState {
        base,
        stream: bag_prefix(),
        compression,
        chunk_size,
        conns: Seq::empty(),
        items: Seq::empty(),
        chunks: Seq::empty(),
        finished: false,
    }
}

/// The bytes written before any chunk: the version line and a bag header
/// record whose index position and counts are zero.
pub open spec fn bag_prefix() -> Seq<u8> {
    version_bytes() + bag_header_record(0, 0, 0)
}

/// The sections of the completed chunks, one after another.
pub open spec fn sections(chunks: Seq<ChunkSummary>) -> Seq<u8> {
    concat(chunks.map_values(|c: ChunkSummary| c.section))
}

/// Each section is what flushing its chunk wrote.
pub open spec fn sections_match(compression: Compression, chunks: Seq<ChunkSummary>) -> bool {
    forall|i: int|
        0 <= i < chunks.len() ==> (#[trigger] chunks[i]).section == chunk_section(
            compression,
            chunks[i].items,
            chunks[i].n_conns,
        )
}

/// Each completed chunk is recorded at the position where the sections
/// before it end.
#[verifier::opaque]
pub open spec fn chunks_positioned(chunks: Seq<ChunkSummary>) -> bool {
    forall|j: int|
        0 <= j < chunks.len() ==> (#[trigger] chunks[j]).chunk_pos == bag_prefix().len() + sections(
            chunks.take(j),
        ).len()
}

/// Flushing keeps the bytes written the version line, the placeholder
/// header and the sections of the completed chunks, each chunk recorded at
/// the position of its section.
pub proof fn lemma_flushed_sections(s: BagState)
    requires
        s.stream == bag_prefix() + sections(s.chunks),
        sections_match(s.compression, s.chunks),
        chunks_positioned(s.chunks),
        chunks_span_own_messages(s.chunks),
        s.stream.len() <= u64::MAX,
    ensures
        chunks_span_own_messages(s.flushed().chunks),
        s.flushed().stream == bag_prefix() + sections(s.flushed().chunks),
        sections_match(s.compression, s.flushed().chunks),
        chunks_positioned(s.flushed().chunks),
        s.flushed().conns == s.conns,
        s.flushed().compression == s.compression,
{
    if s.chunk().len() > 0 {
        let f = s.flushed();
        let last = f.chunks.last();
        reveal(chunks_positioned);
        reveal(chunks_span_own_messages);
        law_flush_records_own_time_range(s);
        assert forall|j: int| 0 <= j < f.chunks.len() implies spans_own_messages(#[trigger] f.chunks[j]) by {
            if j < s.chunks.len() {
                assert(f.chunks[j] == s.chunks[j]);
            }
        }
        assert forall|j: int| 0 <= j < f.chunks.len() implies (#[trigger] f.chunks[j]).chunk_pos
            == bag_prefix().len() + sections(f.chunks.take(j)).len() by {
            if j < s.chunks.len() {
                assert(f.chunks[j] == s.chunks[j]);
                assert(f.chunks.take(j) =~= s.chunks.take(j));
            } else {
                assert(f.chunks.take(j) =~= s.chunks);
            }
        }
        assert(f.chunks.map_values(|c: ChunkSummary| c.section) =~= s.chunks.map_values(
            |c: ChunkSummary| c.section,
        ).push(last.section));
        crate::format::lemma_concat_push(s.chunks.map_values(|c: ChunkSummary| c.section), last.section);
        assert(f.stream =~= bag_prefix() + sections(f.chunks));
        assert forall|i: int| 0 <= i < f.chunks.len() implies (#[trigger] f.chunks[i]).section
            == chunk_section(s.compression, f.chunks[i].items, f.chunks[i].n_conns) by {
            if i < s.chunks.len() {
                assert(f.chunks[i] == s.chunks[i]);
            }
        }
    }
}

/// The chunk info times of a finished bag are each chunk's own: for every
/// chunk, its start and end times are times of its own messages, between
/// which all its message times lie (both are 0 for a chunk without
/// messages), however early the chunks before it start.
pub proof fn law_chunk_info_times_span_own_messages(s: BagState, j: int)
    requires
        s.valid(),
        0 <= j < s.flushed().chunks.len(),
    ensures
        spans_own_messages(s.flushed().chunks[j]),
{
    lemma_flushed_sections(s);
    reveal(chunks_span_own_messages);
}

impl BagState {
    /// What every writer's state satisfies: the bytes written are the version
    /// line, the placeholder bag header and the sections of the completed
    /// chunks, each what flushing its chunk wrote, recorded at the
    /// position of its section and with its own time range; positions fit 64 bits and connection ids 32
    /// bits.
    pub open spec fn valid(self) -> bool {
        &&& self.stream == bag_prefix() + sections(self.chunks)
        &&& sections_match(self.compression, self.chunks)
        &&& chunks_positioned(self.chunks)
        &&& chunks_span_own_messages(self.chunks)
        &&& self.stream.len() <= u64::MAX
        &&& self.conns.len() <= u32::MAX
    }

    /// The state after a connection is registered.
    pub open spec fn registered(self, c: ConnSpec) -> BagState {
        BagState { conns: self.conns.push(c), items: self.items.push(ChunkItem::Connection(c)), ..self }
    }

    /// The state after a message is added to the current chunk.
    pub open spec fn with_message(self, conn_id: u32, time_ns: u64, data: Seq<u8>) -> BagState {
        BagState {
            items: self.items.push(ChunkItem::Message { conn_id, time_ns, data }),
            ..self
        }
    }

    /// The uncompressed data of the current chunk.
    pub open spec fn chunk(self) -> Seq<u8> {
        items_bytes(self.items)
    }

    /// The bytes written for the current chunk when it is flushed.
    pub open spec fn section(self) -> Seq<u8> {
        chunk_section(self.compression, self.items, self.conns.len())
    }

    /// The state after the current chunk is flushed: nothing changes when it
    /// is empty; else its section is written and the chunk is recorded.
    pub open spec fn flushed(self) -> BagState {
        if self.chunk().len() == 0 {
            self
        } else {
            let summary = ChunkSummary {
                chunk_pos: self.stream.len() as u64,
                start_time_ns: match min_time(self.items) {
                    Some(t) => t,
                    None => 0,
                },
                end_time_ns: match max_time(self.items) {
                    Some(t) => t,
                    None => 0,
                },
                counts: chunk_counts(pending_of(self.items), self.conns.len()),
                items: self.items,
                n_conns: self.conns.len(),
                section: self.section(),
            };
            BagState {
                stream: self.stream + self.section(),
                items: Seq::empty(),
                chunks: self.chunks.push(summary),
                ..self
            }
        }
    }

    /// The index section: every connection record, then every chunk info record.
    pub open spec fn index_section(self) -> Seq<u8> {
        concat(self.conns.map_values(|c: ConnSpec| conn_record(c))) + concat(
            self.chunks.map_values(|c: ChunkSummary| chunk_info_of(c)),
        )
    }

    /// The complete bag once this (flushed) state is finalized: the version
    /// line, the bag header with the index position and the counts, the
    /// chunk sections, and the index section.
    pub open spec fn bag_file(self) -> Seq<u8> {
        let index_pos = self.stream.len();
        version_bytes() + bag_header_record(
            index_pos as u64,
            self.conns.len() as u32,
            self.chunks.len() as u32,
        ) + self.stream.skip(version_bytes().len() + BAG_HEADER_SIZE) + self.index_section()
    }
}

} // verus!
