//! The byte layout of the ROS bag v2.0 format, as mathematical sequences.
//!
//! Every writer in this crate is specified against these functions: a value
//! is encoded little-endian, a header field is `len | name=value`, and a
//! record is a length-prefixed header followed by length-prefixed data.
use vstd::bytes::*;
use vstd::prelude::*;

verus! {

/// The four little-endian bytes of `v`.
pub open spec fn le32(v: u32) -> Seq<u8> {
    spec_u32_to_le_bytes(v)
}

/// The eight little-endian bytes of `v`.
pub open spec fn le64(v: u64) -> Seq<u8> {
    spec_u64_to_le_bytes(v)
}

/// Whole seconds of a timestamp in nanoseconds, kept to 32 bits as ROS time does.
pub open spec fn time_secs(time_ns: u64) -> u32 {
    (time_ns / 1_000_000_000) as u32
}

/// The sub-second part of a timestamp in nanoseconds.
pub open spec fn time_nsecs(time_ns: u64) -> u32 {
    (time_ns % 1_000_000_000) as u32
}

/// A ROS time: seconds then nanoseconds, each a little-endian `u32`.
pub open spec fn time_bytes(time_ns: u64) -> Seq<u8> {
    le32(time_secs(time_ns)) + le32(time_nsecs(time_ns))
}

/// `data` preceded by its length as a little-endian `u32`.
pub open spec fn length_prefixed(data: Seq<u8>) -> Seq<u8> {
    le32(data.len() as u32) + data
}

/// The byte `=` that separates a field's name from its value.
pub open spec fn equals_sign() -> u8 {
    0x3du8
}

/// A header field: the length of `name=value` as a `u32`, then `name=value`.
pub open spec fn header_field(name: Seq<u8>, value: Seq<u8>) -> Seq<u8> {
    le32((name.len() + 1 + value.len()) as u32) + name + seq![equals_sign()] + value
}

/// A record: the length-prefixed header, then the length-prefixed data.
pub open spec fn record(header: Seq<u8>, data: Seq<u8>) -> Seq<u8> {
    length_prefixed(header) + length_prefixed(data)
}

/// The bytes of `seqs` one after another.
pub open spec fn concat(seqs: Seq<Seq<u8>>) -> Seq<u8>
    decreases seqs.len(),
{
    if seqs.len() == 0 {
        Seq::empty()
    } else {
        concat(seqs.drop_last()) + seqs.last()
    }
}

/// The contents of a seekable byte buffer after `data` is written at `pos`:
/// bytes before `pos` are kept (a gap past the end reads as zeros), the
/// written range holds `data`, and bytes after it are kept. Writing nothing
/// leaves the buffer as it is, wherever the position.
pub open spec fn write_at(buf: Seq<u8>, pos: nat, data: Seq<u8>) -> Seq<u8> {
    if data.len() == 0 {
        buf
    } else {
        let len = if buf.len() >= pos + data.len() {
            buf.len()
        } else {
            pos + data.len()
        };
        Seq::new(
            len,
            |k: int|
                if pos <= k < pos + data.len() {
                    data[k - pos]
                } else if k < buf.len() {
                    buf[k]
                } else {
                    0u8
                },
        )
    }
}

/// Writing two pieces one after the other is writing their concatenation.
pub proof fn lemma_write_at_concat(buf: Seq<u8>, pos: nat, x: Seq<u8>, y: Seq<u8>)
    ensures
        write_at(write_at(buf, pos, x), pos + x.len(), y) == write_at(buf, pos, x + y),
{
    if x.len() == 0 {
        assert(x + y =~= y);
    } else if y.len() == 0 {
        assert(x + y =~= x);
    } else {
        assert(write_at(write_at(buf, pos, x), pos + x.len(), y) =~= write_at(buf, pos, x + y));
    }
}

/// Writing at the end of a buffer appends.
pub proof fn lemma_write_at_end(buf: Seq<u8>, data: Seq<u8>)
    ensures
        write_at(buf, buf.len(), data) == buf + data,
{
    if data.len() == 0 {
        assert(buf + data =~= buf);
    } else {
        assert(write_at(buf, buf.len(), data) =~= buf + data);
    }
}

/// Writing inside bytes already written over a buffer is writing inside
/// those bytes first.
pub proof fn lemma_write_at_inside(base: Seq<u8>, full: Seq<u8>, pos: nat, data: Seq<u8>)
    requires
        pos + data.len() <= full.len(),
    ensures
        write_at(write_at(base, 0, full), pos, data) == write_at(
            base,
            0,
            full.take(pos as int) + data + full.skip((pos + data.len()) as int),
        ),
{
    let spliced = full.take(pos as int) + data + full.skip((pos + data.len()) as int);
    if data.len() == 0 {
        assert(spliced =~= full);
    } else {
        assert(write_at(write_at(base, 0, full), pos, data) =~= write_at(base, 0, spliced));
    }
}

/// The concatenation of the first `i + 1` pieces extends that of the first `i`.
pub proof fn lemma_concat_take(seqs: Seq<Seq<u8>>, i: int)
    requires
        0 <= i < seqs.len(),
    ensures
        concat(seqs.take(i + 1)) == concat(seqs.take(i)) + seqs[i],
        concat(seqs.take(i + 1)).len() <= concat(seqs).len(),
    decreases seqs.len(),
{
    assert(seqs.take(i + 1).drop_last() =~= seqs.take(i));
    if i + 1 < seqs.len() {
        lemma_concat_take(seqs.drop_last(), i);
        assert(seqs.drop_last().take(i + 1) =~= seqs.take(i + 1));
    } else {
        assert(seqs.take(i + 1) =~= seqs);
    }
}

/// The concatenation of the first `i` pieces begins the concatenation of
/// all of them.
pub proof fn lemma_concat_prefix(seqs: Seq<Seq<u8>>, i: int)
    requires
        0 <= i <= seqs.len(),
    ensures
        concat(seqs.take(i)).len() <= concat(seqs).len(),
        concat(seqs).take(concat(seqs.take(i)).len() as int) == concat(seqs.take(i)),
    decreases seqs.len(),
{
    if i == seqs.len() {
        assert(seqs.take(i) =~= seqs);
        assert(concat(seqs).take(concat(seqs).len() as int) =~= concat(seqs));
    } else {
        let pre = seqs.drop_last();
        lemma_concat_prefix(pre, i);
        assert(pre.take(i) =~= seqs.take(i));
        let l = concat(seqs.take(i)).len() as int;
        assert(concat(seqs).take(l) =~= concat(pre).take(l));
    }
}

/// Concatenating one more piece.
pub proof fn lemma_concat_push(seqs: Seq<Seq<u8>>, s: Seq<u8>)
    ensures
        concat(seqs.push(s)) == concat(seqs) + s,
{
    assert(seqs.push(s).drop_last() =~= seqs);
}

/// The little-endian encodings have their fixed widths.
pub proof fn lemma_le_lengths()
    ensures
        forall|v: u32| #[trigger] le32(v).len() == 4,
        forall|v: u64| #[trigger] le64(v).len() == 8,
{
    lemma_auto_spec_u32_to_from_le_bytes();
    lemma_auto_spec_u64_to_from_le_bytes();
}

} // verus!
