//! How a reader takes the bag format apart, as mathematical functions, and
//! the facts that the encodings of `format` are taken apart into what was
//! encoded.
use crate::format::{header_field, le32, le64, length_prefixed, record, time_bytes, time_nsecs, time_secs};
use crate::writer::model::version_bytes;
use crate::writer::op;
use vstd::bytes::*;
use vstd::prelude::*;
use vstd::string::StringSliceAdditionalSpecFns;

verus! {

/// The little-endian `u32` in the first four bytes.
pub open spec fn read_u32(bytes: Seq<u8>) -> u32 {
    spec_u32_from_le_bytes(bytes.take(4))
}

/// The little-endian `u64` in the first eight bytes.
pub open spec fn read_u64(bytes: Seq<u8>) -> u64 {
    spec_u64_from_le_bytes(bytes.take(8))
}

/// A timestamp in nanoseconds from a ROS time (seconds, then nanoseconds).
pub open spec fn read_time(bytes: Seq<u8>) -> int {
    read_u32(bytes) * 1_000_000_000 + read_u32(bytes.skip(4))
}

/// One record taken off the front of `bytes`: its header, its data, and
/// the bytes after it; `None` when the lengths run past the end.
pub open spec fn parse_record(bytes: Seq<u8>) -> Option<(Seq<u8>, Seq<u8>, Seq<u8>)> {
    if bytes.len() < 4 {
        None
    } else {
        let hl = read_u32(bytes) as int;
        if 4 + hl + 4 > bytes.len() {
            None
        } else {
            let dl = read_u32(bytes.skip(4 + hl)) as int;
            if 8 + hl + dl > bytes.len() {
                None
            } else {
                Some((bytes.subrange(4, 4 + hl), bytes.subrange(8 + hl, 8 + hl + dl), bytes.skip(8 + hl + dl)))
            }
        }
    }
}

/// The records of `bytes`, taken off one after another until none is left.
pub open spec fn parse_records(bytes: Seq<u8>) -> Option<Seq<(Seq<u8>, Seq<u8>)>>
    decreases bytes.len(),
{
    match parse_record(bytes) {
        None => if bytes.len() == 0 {
            Some(Seq::empty())
        } else {
            None
        },
        Some((h, d, rest)) => if rest.len() < bytes.len() {
            match parse_records(rest) {
                Some(recs) => Some(seq![(h, d)] + recs),
                None => None,
            }
        } else {
            None
        },
    }
}

/// The bytes of records one after another.
pub open spec fn records_bytes(recs: Seq<(Seq<u8>, Seq<u8>)>) -> Seq<u8>
    decreases recs.len(),
{
    if recs.len() == 0 {
        Seq::empty()
    } else {
        records_bytes(recs.drop_last()) + record(recs.last().0, recs.last().1)
    }
}

/// Every header and data of `recs` has a length that a `u32` holds.
pub open spec fn records_fit(recs: Seq<(Seq<u8>, Seq<u8>)>) -> bool {
    forall|i: int|
        0 <= i < recs.len() ==> (#[trigger] recs[i]).0.len() <= u32::MAX && recs[i].1.len()
            <= u32::MAX
}

/// Records whose bytes fit in `u32::MAX` bytes each fit a `u32` length.
pub proof fn lemma_records_fit_len(recs: Seq<(Seq<u8>, Seq<u8>)>)
    ensures
        records_bytes(recs).len() <= u32::MAX ==> records_fit(recs),
    decreases recs.len(),
{
    lemma_auto_spec_u32_to_from_le_bytes();
    if recs.len() > 0 {
        lemma_records_fit_len(recs.drop_last());
        if records_bytes(recs).len() <= u32::MAX {
            assert forall|i: int| 0 <= i < recs.len() implies (#[trigger] recs[i]).0.len() <= u32::MAX
                && recs[i].1.len() <= u32::MAX by {
                if i < recs.len() - 1 {
                    assert(recs[i] == recs.drop_last()[i]);
                }
            }
        }
    }
}

/// A length-prefixed piece reads back its length.
pub proof fn lemma_read_length(data: Seq<u8>, rest: Seq<u8>)
    requires
        data.len() <= u32::MAX,
    ensures
        read_u32(length_prefixed(data) + rest) == data.len(),
        (length_prefixed(data) + rest).len() == 4 + data.len() + rest.len(),
{
    lemma_auto_spec_u32_to_from_le_bytes();
    let b = length_prefixed(data) + rest;
    assert(b.take(4) =~= le32(data.len() as u32));
}

/// A record is taken off the front of the bytes it starts.
pub proof fn lemma_parse_record(h: Seq<u8>, d: Seq<u8>, rest: Seq<u8>)
    requires
        h.len() <= u32::MAX,
        d.len() <= u32::MAX,
    ensures
        parse_record(record(h, d) + rest) == Some((h, d, rest)),
{
    lemma_auto_spec_u32_to_from_le_bytes();
    let b = record(h, d) + rest;
    lemma_read_length(h, length_prefixed(d) + rest);
    assert(b =~= length_prefixed(h) + (length_prefixed(d) + rest));
    let hl = h.len() as int;
    assert(b.skip(4 + hl) =~= length_prefixed(d) + rest);
    lemma_read_length(d, rest);
    assert(b.subrange(4, 4 + hl) =~= h);
    assert(b.subrange(8 + hl, 8 + hl + d.len()) =~= d);
    assert(b.skip(8 + hl + d.len()) =~= rest);
}

/// Appending records appends their bytes.
pub proof fn lemma_records_bytes_append(a: Seq<(Seq<u8>, Seq<u8>)>, b: Seq<(Seq<u8>, Seq<u8>)>)
    ensures
        records_bytes(a + b) == records_bytes(a) + records_bytes(b),
    decreases b.len(),
{
    if b.len() == 0 {
        assert(a + b =~= a);
    } else {
        lemma_records_bytes_append(a, b.drop_last());
        assert((a + b).drop_last() =~= a + b.drop_last());
    }
}

/// Records written one after another are read back, one after another.
pub proof fn lemma_parse_records(recs: Seq<(Seq<u8>, Seq<u8>)>)
    requires
        records_fit(recs),
    ensures
        parse_records(records_bytes(recs)) == Some(recs),
    decreases recs.len(),
{
    if recs.len() == 0 {
        assert(parse_record(Seq::<u8>::empty()) is None);
    } else {
        let first = recs[0];
        let tail = recs.drop_first();
        assert(recs =~= seq![first] + tail);
        lemma_records_bytes_append(seq![first], tail);
        assert(seq![first].drop_last() =~= Seq::<(Seq<u8>, Seq<u8>)>::empty());
        assert(records_bytes(Seq::<(Seq<u8>, Seq<u8>)>::empty()) == Seq::<u8>::empty());
        assert(seq![first].last() == first);
        assert(records_bytes(seq![first]) =~= record(first.0, first.1));
        assert(records_fit(tail)) by {
            assert forall|i: int| 0 <= i < tail.len() implies (#[trigger] tail[i]).0.len() <= u32::MAX
                && tail[i].1.len() <= u32::MAX by {
                assert(tail[i] == recs[i + 1]);
            }
        }
        lemma_parse_records(tail);
        lemma_parse_record(first.0, first.1, records_bytes(tail));
        lemma_le_len();
    }
}

/// The index of the first `b` in `s`.
pub open spec fn find_byte(s: Seq<u8>, b: u8) -> Option<nat>
    decreases s.len(),
{
    if s.len() == 0 {
        None
    } else if s[0] == b {
        Some(0)
    } else {
        match find_byte(s.drop_first(), b) {
            Some(k) => Some(k + 1),
            None => None,
        }
    }
}

/// One header field taken off the front of `bytes`: its name (before the
/// first `=`), its value, and the bytes after it.
pub open spec fn parse_field(bytes: Seq<u8>) -> Option<(Seq<u8>, Seq<u8>, Seq<u8>)> {
    if bytes.len() < 4 {
        None
    } else {
        let fl = read_u32(bytes) as int;
        if 4 + fl > bytes.len() {
            None
        } else {
            let field = bytes.subrange(4, 4 + fl);
            match find_byte(field, 0x3du8) {
                Some(k) => Some((field.take(k as int), field.skip(k as int + 1), bytes.skip(4 + fl))),
                None => None,
            }
        }
    }
}

/// The fields of a record header, taken off one after another.
pub open spec fn parse_fields(bytes: Seq<u8>) -> Option<Seq<(Seq<u8>, Seq<u8>)>>
    decreases bytes.len(),
{
    if bytes.len() == 0 {
        Some(Seq::empty())
    } else {
        match parse_field(bytes) {
            None => None,
            Some((n, v, rest)) => if rest.len() < bytes.len() {
                match parse_fields(rest) {
                    Some(fs) => Some(seq![(n, v)] + fs),
                    None => None,
                }
            } else {
                None
            },
        }
    }
}

/// The value of the first field named `name`.
pub open spec fn field_lookup(fields: Seq<(Seq<u8>, Seq<u8>)>, name: Seq<u8>) -> Option<Seq<u8>>
    decreases fields.len(),
{
    if fields.len() == 0 {
        None
    } else if fields[0].0 == name {
        Some(fields[0].1)
    } else {
        field_lookup(fields.drop_first(), name)
    }
}

/// The value of the field `name` of a record header, when the header parses.
pub open spec fn header_value(header: Seq<u8>, name: Seq<u8>) -> Option<Seq<u8>> {
    match parse_fields(header) {
        Some(fs) => field_lookup(fs, name),
        None => None,
    }
}

/// The bytes of header fields one after another.
pub open spec fn fields_bytes(fields: Seq<(Seq<u8>, Seq<u8>)>) -> Seq<u8>
    decreases fields.len(),
{
    if fields.len() == 0 {
        Seq::empty()
    } else {
        fields_bytes(fields.drop_last()) + header_field(fields.last().0, fields.last().1)
    }
}

/// A field name holds no `=`.
pub open spec fn no_equals(name: Seq<u8>) -> bool {
    forall|i: int| 0 <= i < name.len() ==> #[trigger] name[i] != 0x3du8
}

/// Every field's name holds no `=`, and its `name=value` length fits a `u32`.
pub open spec fn fields_fit(fields: Seq<(Seq<u8>, Seq<u8>)>) -> bool {
    forall|i: int|
        0 <= i < fields.len() ==> no_equals((#[trigger] fields[i]).0) && fields[i].0.len() + 1
            + fields[i].1.len() <= u32::MAX
}

/// The first `=` of `name=value` is the one after the name.
pub proof fn lemma_find_equals(name: Seq<u8>, value: Seq<u8>)
    requires
        no_equals(name),
    ensures
        find_byte(name + seq![0x3du8] + value, 0x3du8) == Some(name.len()),
    decreases name.len(),
{
    let s = name + seq![0x3du8] + value;
    if name.len() > 0 {
        lemma_find_equals(name.drop_first(), value);
        assert(s.drop_first() =~= name.drop_first() + seq![0x3du8] + value);
    }
}

/// A header field is taken off the front of the bytes it starts.
pub proof fn lemma_parse_field(name: Seq<u8>, value: Seq<u8>, rest: Seq<u8>)
    requires
        no_equals(name),
        name.len() + 1 + value.len() <= u32::MAX,
    ensures
        parse_field(header_field(name, value) + rest) == Some((name, value, rest)),
{
    let body = name + seq![0x3du8] + value;
    let b = header_field(name, value) + rest;
    assert(b =~= length_prefixed(body) + rest);
    lemma_read_length(body, rest);
    assert(b.subrange(4, 4 + body.len() as int) =~= body);
    lemma_find_equals(name, value);
    assert(body.take(name.len() as int) =~= name);
    assert(body.skip(name.len() as int + 1) =~= value);
    assert(b.skip(4 + body.len() as int) =~= rest);
}

/// Appending fields appends their bytes.
pub proof fn lemma_fields_bytes_append(a: Seq<(Seq<u8>, Seq<u8>)>, b: Seq<(Seq<u8>, Seq<u8>)>)
    ensures
        fields_bytes(a + b) == fields_bytes(a) + fields_bytes(b),
    decreases b.len(),
{
    if b.len() == 0 {
        assert(a + b =~= a);
    } else {
        lemma_fields_bytes_append(a, b.drop_last());
        assert((a + b).drop_last() =~= a + b.drop_last());
    }
}

/// Fields written one after another are read back, one after another.
pub proof fn lemma_parse_fields(fields: Seq<(Seq<u8>, Seq<u8>)>)
    requires
        fields_fit(fields),
    ensures
        parse_fields(fields_bytes(fields)) == Some(fields),
    decreases fields.len(),
{
    if fields.len() > 0 {
        let first = fields[0];
        let tail = fields.drop_first();
        assert(fields =~= seq![first] + tail);
        lemma_fields_bytes_append(seq![first], tail);
        assert(seq![first].drop_last() =~= Seq::<(Seq<u8>, Seq<u8>)>::empty());
        assert(fields_bytes(Seq::<(Seq<u8>, Seq<u8>)>::empty()) == Seq::<u8>::empty());
        assert(seq![first].last() == first);
        assert(fields_bytes(seq![first]) =~= header_field(first.0, first.1));
        assert(fields_fit(tail)) by {
            assert forall|i: int| 0 <= i < tail.len() implies no_equals((#[trigger] tail[i]).0)
                && tail[i].0.len() + 1 + tail[i].1.len() <= u32::MAX by {
                assert(tail[i] == fields[i + 1]);
            }
        }
        lemma_parse_fields(tail);
        lemma_parse_field(first.0, first.1, fields_bytes(tail));
        lemma_le_len();
    }
}

/// A message as a reader finds it: its connection, its time in
/// nanoseconds, and its data.
pub struct MessageRead {
    pub conn_id: u32,
    pub time_ns: int,
    pub data: Seq<u8>,
}

/// The messages among the records of a chunk's data, in order: the records
/// whose op is that of message data, with their `conn` and `time` fields.
pub open spec fn payload_messages(recs: Seq<(Seq<u8>, Seq<u8>)>) -> Seq<MessageRead>
    decreases recs.len(),
{
    if recs.len() == 0 {
        Seq::empty()
    } else {
        let rest = payload_messages(recs.drop_last());
        let h = recs.last().0;
        let d = recs.last().1;
        if header_value(h, "op".spec_bytes()) == Some(seq![op::MESSAGE_DATA]) {
            match (header_value(h, "conn".spec_bytes()), header_value(h, "time".spec_bytes())) {
                (Some(c), Some(t)) => rest.push(
                    MessageRead { conn_id: read_u32(c), time_ns: read_time(t), data: d },
                ),
                _ => rest,
            }
        } else {
            rest
        }
    }
}

/// The data of a chunk, from the name of its compression and the data it
/// stores: that data itself when the name is `none`; else what the reader's
/// decompressor `inflate` makes of the name and the data.
pub open spec fn chunk_payload(
    inflate: spec_fn(Seq<u8>, Seq<u8>) -> Option<Seq<u8>>,
    name: Seq<u8>,
    stored: Seq<u8>,
) -> Option<Seq<u8>> {
    if name == "none".spec_bytes() {
        Some(stored)
    } else {
        inflate(name, stored)
    }
}

/// The messages of the chunk records among `recs`, in order, as a reader
/// with the decompressor `inflate` finds them; other records are passed
/// over. `None` when a chunk names no compression, or its data cannot be had
/// or does not parse.
pub open spec fn chunk_messages(
    inflate: spec_fn(Seq<u8>, Seq<u8>) -> Option<Seq<u8>>,
    recs: Seq<(Seq<u8>, Seq<u8>)>,
) -> Option<Seq<MessageRead>>
    decreases recs.len(),
{
    if recs.len() == 0 {
        Some(Seq::empty())
    } else {
        match chunk_messages(inflate, recs.drop_last()) {
            None => None,
            Some(rest) => {
                let h = recs.last().0;
                let d = recs.last().1;
                if header_value(h, "op".spec_bytes()) == Some(seq![op::CHUNK]) {
                    match header_value(h, "compression".spec_bytes()) {
                        Some(name) => match chunk_payload(inflate, name, d) {
                            Some(payload) => match parse_records(payload) {
                                Some(inner) => Some(rest + payload_messages(inner)),
                                None => None,
                            },
                            None => None,
                        },
                        None => None,
                    }
                } else {
                    Some(rest)
                }
            },
        }
    }
}

/// What a reader takes from a bag file.
pub struct BagRead {
    /// The index position in the bag header.
    pub index_pos: u64,
    /// The connection count in the bag header.
    pub conn_count: u32,
    /// The chunk count in the bag header.
    pub chunk_count: u32,
    /// The messages of the chunks between the bag header and the index.
    pub messages: Seq<MessageRead>,
}

/// Read a bag file with the decompressor `inflate`: the version line, the
/// bag header record and its fields, then the records from the end of the
/// bag header to the index position, and the messages of their chunks.
pub open spec fn read_bag(inflate: spec_fn(Seq<u8>, Seq<u8>) -> Option<Seq<u8>>, file: Seq<u8>) -> Option<
    BagRead,
> {
    if file.len() < version_bytes().len() || file.take(version_bytes().len() as int) != version_bytes() {
        None
    } else {
        match parse_record(file.skip(version_bytes().len() as int)) {
            None => None,
            Some((h, d, rest)) => match (
                header_value(h, "op".spec_bytes()),
                header_value(h, "index_pos".spec_bytes()),
                header_value(h, "conn_count".spec_bytes()),
                header_value(h, "chunk_count".spec_bytes()),
            ) {
                (Some(o), Some(ip), Some(cc), Some(ch)) => {
                    let index_pos = read_u64(ip);
                    let start = file.len() - rest.len();
                    if o == seq![op::BAG_HEADER] && start <= index_pos <= file.len() {
                        match parse_records(file.subrange(start, index_pos as int)) {
                            Some(recs) => match chunk_messages(inflate, recs) {
                                Some(ms) => Some(
                                    BagRead {
                                        index_pos,
                                        conn_count: read_u32(cc),
                                        chunk_count: read_u32(ch),
                                        messages: ms,
                                    },
                                ),
                                None => None,
                            },
                            None => None,
                        }
                    } else {
                        None
                    }
                },
                _ => None,
            },
        }
    }
}

/// A ROS time reads back the timestamp it encodes, when its seconds fit
/// 32 bits (timestamps before about the year 2106).
pub proof fn lemma_read_time(time_ns: u64)
    requires
        time_ns / 1_000_000_000 <= u32::MAX,
    ensures
        read_time(time_bytes(time_ns)) == time_ns,
{
    lemma_auto_spec_u32_to_from_le_bytes();
    let b = time_bytes(time_ns);
    assert(b.take(4) =~= le32(time_secs(time_ns)));
    assert(b.skip(4).take(4) =~= le32(time_nsecs(time_ns)));
    assert(time_secs(time_ns) == time_ns / 1_000_000_000);
    assert(time_nsecs(time_ns) == time_ns % 1_000_000_000);
    assert(time_ns == (time_ns / 1_000_000_000) * 1_000_000_000 + time_ns % 1_000_000_000) by {
        vstd::arithmetic::div_mod::lemma_fundamental_div_mod(time_ns as int, 1_000_000_000);
    }
}

/// A little-endian `u32` reads back.
pub proof fn lemma_read_u32(v: u32, rest: Seq<u8>)
    ensures
        read_u32(le32(v) + rest) == v,
{
    lemma_auto_spec_u32_to_from_le_bytes();
    assert((le32(v) + rest).take(4) =~= le32(v));
}

/// A little-endian `u64` reads back.
pub proof fn lemma_read_u64(v: u64, rest: Seq<u8>)
    ensures
        read_u64(le64(v) + rest) == v,
{
    lemma_auto_spec_u64_to_from_le_bytes();
    assert((le64(v) + rest).take(8) =~= le64(v));
}

/// The encodings have their fixed widths.
proof fn lemma_le_len()
    ensures
        forall|v: u32| #[trigger] le32(v).len() == 4,
{
    lemma_auto_spec_u32_to_from_le_bytes();
}

} // verus!
