//! Write cursor for binary data output.
use crate::codec::{le_u32_bytes, le_u64_bytes};
use crate::writer::error::WriteError;
use crate::format::{
    header_field, le32, le64, lemma_le_lengths, lemma_write_at_concat, lemma_write_at_end, length_prefixed, record,
    time_bytes, time_nsecs, time_secs, write_at,
};
use vstd::prelude::*;
use vstd::string::StringSliceAdditionalSpecFns;

verus! {

/// Whether `n` more bytes fit after position `pos` in a buffer, which can
/// hold at most `usize::MAX` bytes.
pub open spec fn fits(pos: nat, n: nat) -> bool {
    pos + n <= usize::MAX
}

/// A cursor for writing binary data with little-endian encoding into an
/// in-memory buffer.
///
/// Positions count from the cursor's origin in the buffer: the end of what
/// the buffer held for a cursor made by [`new`](Self::new), which appends as
/// writing to a `Vec<u8>` does, and the buffer's start for one made by
/// [`at_start`](Self::at_start), which writes over the buffer as a
/// `std::io::Cursor` of it does. The buffer behaves as a seekable byte
/// stream: a write overwrites what is at its offset and extends the buffer
/// past its end, and a gap between the end and the offset is filled with
/// zeros.
pub struct WriteCursor {
    buf: Vec<u8>,
    origin: usize,
    pos: u64,
}

/// What a write of `data` at the cursor does: when the bytes fit, they go in
/// at the cursor's offset and the position moves past them; when they would
/// not, the write fails with an I/O error and the cursor is unchanged.
pub open spec fn wrote(pre: WriteCursor, post: WriteCursor, r: Result<(), WriteError>, data: Seq<u8>) -> bool {
    if fits(pre.offset(), data.len()) {
        &&& r is Ok
        &&& post.contents() == write_at(pre.contents(), pre.offset(), data)
        &&& post.origin() == pre.origin()
        &&& post.position() == pre.position() + data.len()
        &&& (pre.offset() == pre.contents().len() ==> post.contents() == pre.contents() + data)
    } else {
        &&& r matches Err(WriteError::IoError(_))
        &&& post == pre
    }
}

impl WriteCursor {
    /// The bytes of the underlying buffer.
    pub closed spec fn contents(&self) -> Seq<u8> {
        self.buf@
    }

    /// The current position (the number of bytes written when no seek was made).
    pub closed spec fn position(&self) -> nat {
        self.pos as nat
    }

    /// Where position 0 is in the buffer.
    pub closed spec fn origin(&self) -> nat {
        self.origin as nat
    }

    /// Where in the buffer the next write goes.
    pub open spec fn offset(&self) -> nat {
        self.origin() + self.position()
    }

    /// Create a new WriteCursor wrapping the given buffer: what it writes
    /// goes after the bytes the buffer holds, as writing to a `Vec<u8>`
    /// appends, and its position counts the bytes written.
    pub fn new(writer: Vec<u8>) -> (c: Self)
        ensures
            c.contents() == writer@,
            c.origin() == writer@.len(),
            c.position() == 0,
    {
        let origin = writer.len();
        WriteCursor { buf: writer, origin, pos: 0 }
    }

    /// Create a WriteCursor that writes over the given buffer from its start,
    /// as a `std::io::Cursor` of the buffer does.
    pub fn at_start(writer: Vec<u8>) -> (c: Self)
        ensures
            c.contents() == writer@,
            c.origin() == 0,
            c.position() == 0,
    {
        WriteCursor { buf: writer, origin: 0, pos: 0 }
    }

    /// Get the current position (number of bytes written).
    pub fn pos(&self) -> (r: u64)
        ensures
            r == self.position(),
    {
        self.pos
    }

    /// Get the inner buffer.
    pub fn into_inner(self) -> (r: Vec<u8>)
        ensures
            r@ == self.contents(),
    {
        self.buf
    }

    /// Get a mutable reference to the inner buffer.
    pub fn get_mut(&mut self) -> (r: &mut Vec<u8>)
        ensures
            r@ == old(self).contents(),
            final(self).contents() == final(r)@,
            final(self).origin() == old(self).origin(),
            final(self).position() == old(self).position(),
    {
        &mut self.buf
    }

    /// Whether `n` bytes fit at the cursor's offset.
    fn has_room(&self, n: u128) -> (r: bool)
        requires
            n <= 0x1_0000_0000_0000_0000_0000u128,
        ensures
            r == fits(self.offset(), n as nat),
    {
        (self.origin as u128) + (self.pos as u128) + n <= usize::MAX as u128
    }

    /// Write raw bytes.
    pub fn write_bytes(&mut self, data: &[u8]) -> (r: Result<(), WriteError>)
        ensures
            wrote(*old(self), *final(self), r, data@),
    {
        if !self.has_room(data.len() as u128) {
            return Err(room_error());
        }
        if data.len() == 0 {
            return Ok(());
        }
        let p = self.origin + self.pos as usize;
        let ghost old_buf = self.buf@;
        while self.buf.len() < p
            invariant
                p == old(self).origin + old(self).pos,
                self.pos == old(self).pos,
                self.origin == old(self).origin,
                old_buf == old(self).buf@,
                self.buf@.len() <= p || self.buf@.len() == old_buf.len(),
                old_buf.len() <= self.buf@.len(),
                forall|k: int| 0 <= k < self.buf@.len() ==> #[trigger] self.buf@[k] == (if k < old_buf.len() { old_buf[k] } else { 0u8 }),
            decreases p - self.buf@.len(),
        {
            self.buf.push(0u8);
        }
        let ghost padded = self.buf@;
        let mut i: usize = 0;
        while i < data.len()
            invariant
                p == old(self).origin + old(self).pos,
                self.pos == old(self).pos,
                self.origin == old(self).origin,
                p + data@.len() <= usize::MAX,
                i <= data@.len(),
                padded.len() >= p,
                self.buf@.len() == (if padded.len() >= p + i { padded.len() } else { (p + i) as nat }),
                forall|k: int|
                    0 <= k < self.buf@.len() ==> #[trigger] self.buf@[k] == (if p <= k < p + i {
                        data@[k - p]
                    } else {
                        padded[k]
                    }),
            decreases data@.len() - i,
        {
            if p + i < self.buf.len() {
                self.buf.set(p + i, data[i]);
            } else {
                self.buf.push(data[i]);
            }
            i = i + 1;
        }
        self.pos = self.pos + data.len() as u64;
        assert(self.buf@ =~= write_at(old_buf, p as nat, data@));
        proof {
            lemma_write_at_end(old_buf, data@);
        }
        Ok(())
    }

    /// Write a little-endian u32.
    pub fn write_u32(&mut self, val: u32) -> (r: Result<(), WriteError>)
        ensures
            wrote(*old(self), *final(self), r, le32(val)),
    {
        let bytes = le_u32_bytes(val);
        self.write_bytes(bytes.as_slice())
    }

    /// Write a little-endian u64.
    pub fn write_u64(&mut self, val: u64) -> (r: Result<(), WriteError>)
        ensures
            wrote(*old(self), *final(self), r, le64(val)),
    {
        let bytes = le_u64_bytes(val);
        self.write_bytes(bytes.as_slice())
    }

    /// Write a ROS time (seconds + nanoseconds as two u32s).
    /// Input is nanoseconds since UNIX epoch.
    pub fn write_time(&mut self, time_ns: u64) -> (r: Result<(), WriteError>)
        ensures
            wrote(*old(self), *final(self), r, time_bytes(time_ns)),
    {
        proof {
            lemma_le_lengths();
        }
        if !self.has_room(8) {
            return Err(room_error());
        }
        let secs = (time_ns / 1_000_000_000) as u32;
        let nsecs = (time_ns % 1_000_000_000) as u32;
        let ghost c0 = *self;
        self.write_u32(secs)?;
        let ghost c1 = *self;
        self.write_u32(nsecs)?;
        proof {
            lemma_wrote_seq(c0, c1, *self, le32(secs), le32(nsecs));
        }
        Ok(())
    }

    /// Write a length-prefixed chunk of data.
    pub fn write_chunk(&mut self, data: &[u8]) -> (r: Result<(), WriteError>)
        ensures
            wrote(*old(self), *final(self), r, length_prefixed(data@)),
    {
        proof {
            lemma_le_lengths();
        }
        if !self.has_room(4 + data.len() as u128) {
            return Err(room_error());
        }
        let ghost c0 = *self;
        self.write_u32(data.len() as u32)?;
        let ghost c1 = *self;
        self.write_bytes(data)?;
        proof {
            lemma_wrote_seq(c0, c1, *self, le32(data@.len() as u32), data@);
        }
        Ok(())
    }

    /// Write a header field in the format: len(name=value) | name=value
    pub fn write_header_field(&mut self, name: &str, value: &[u8]) -> (r: Result<(), WriteError>)
        ensures
            wrote(*old(self), *final(self), r, header_field(name.spec_bytes(), value@)),
    {
        proof {
            lemma_le_lengths();
        }
        let name_bytes = name.as_bytes();
        if !self.has_room(4 + name_bytes.len() as u128 + 1 + value.len() as u128) {
            return Err(room_error());
        }
        let field_len = name_bytes.len() + 1 + value.len();
        let equals = [0x3du8];
        let ghost c0 = *self;
        self.write_u32(field_len as u32)?;
        let ghost c1 = *self;
        self.write_bytes(name_bytes)?;
        let ghost c2 = *self;
        self.write_bytes(equals.as_slice())?;
        let ghost c3 = *self;
        self.write_bytes(value)?;
        proof {
            let l = le32(field_len as u32);
            lemma_wrote_seq(c0, c1, c2, l, name_bytes@);
            lemma_wrote_seq(c0, c2, c3, l + name_bytes@, equals@);
            lemma_wrote_seq(c0, c3, *self, l + name_bytes@ + equals@, value@);
            assert(equals@ =~= seq![0x3du8]);
        }
        Ok(())
    }

    /// Write a header field with a u32 value.
    pub fn write_header_field_u32(&mut self, name: &str, value: u32) -> (r: Result<(), WriteError>)
        ensures
            wrote(*old(self), *final(self), r, header_field(name.spec_bytes(), le32(value))),
    {
        let buf = le_u32_bytes(value);
        self.write_header_field(name, buf.as_slice())
    }

    /// Write a header field with a u64 value.
    pub fn write_header_field_u64(&mut self, name: &str, value: u64) -> (r: Result<(), WriteError>)
        ensures
            wrote(*old(self), *final(self), r, header_field(name.spec_bytes(), le64(value))),
    {
        let buf = le_u64_bytes(value);
        self.write_header_field(name, buf.as_slice())
    }

    /// Write a header field with a time value (nanoseconds since UNIX epoch).
    pub fn write_header_field_time(&mut self, name: &str, time_ns: u64) -> (r: Result<(), WriteError>)
        ensures
            wrote(*old(self), *final(self), r, header_field(name.spec_bytes(), time_bytes(time_ns))),
    {
        let secs = (time_ns / 1_000_000_000) as u32;
        let nsecs = (time_ns % 1_000_000_000) as u32;
        let mut buf: Vec<u8> = Vec::new();
        append_bytes(&mut buf, le_u32_bytes(secs).as_slice());
        append_bytes(&mut buf, le_u32_bytes(nsecs).as_slice());
        assert(buf@ =~= time_bytes(time_ns));
        self.write_header_field(name, buf.as_slice())
    }

    /// Write a header field with a string value.
    pub fn write_header_field_str(&mut self, name: &str, value: &str) -> (r: Result<(), WriteError>)
        ensures
            wrote(*old(self), *final(self), r, header_field(name.spec_bytes(), value.spec_bytes())),
    {
        self.write_header_field(name, value.as_bytes())
    }

    /// Write a header field with an op code (single byte).
    pub fn write_header_field_op(&mut self, op: u8) -> (r: Result<(), WriteError>)
        ensures
            wrote(*old(self), *final(self), r, header_field("op".spec_bytes(), seq![op])),
    {
        let buf = [op];
        assert(buf@ =~= seq![op]);
        self.write_header_field("op", buf.as_slice())
    }

    /// Write a complete record (header + data).
    ///
    /// Format: header_len (4 bytes) | header | data_len (4 bytes) | data
    pub fn write_record(&mut self, header: &[u8], data: &[u8]) -> (r: Result<(), WriteError>)
        ensures
            wrote(*old(self), *final(self), r, record(header@, data@)),
    {
        proof {
            lemma_le_lengths();
        }
        if !self.has_room(8 + header.len() as u128 + data.len() as u128) {
            return Err(room_error());
        }
        let ghost c0 = *self;
        self.write_chunk(header)?;
        let ghost c1 = *self;
        self.write_chunk(data)?;
        proof {
            lemma_wrote_seq(c0, c1, *self, length_prefixed(header@), length_prefixed(data@));
        }
        Ok(())
    }

    /// Flush the underlying buffer (an in-memory buffer has nothing pending).
    pub fn flush(&mut self) -> (r: Result<(), WriteError>)
        ensures
            r is Ok,
            *final(self) == *old(self),
    {
        Ok(())
    }

    /// Seek to an absolute position (counted from the cursor's origin).
    pub fn seek(&mut self, pos: u64) -> (r: Result<(), WriteError>)
        ensures
            r is Ok,
            final(self).contents() == old(self).contents(),
            final(self).origin() == old(self).origin(),
            final(self).position() == pos,
    {
        self.pos = pos;
        Ok(())
    }
}

/// A successful call on a cursor, as its position sees it: a write of these
/// bytes (by any of the `write_*` methods), or a seek to this position.
pub enum CursorStep {
    Write(Seq<u8>),
    Seek(nat),
}

/// Whether `post` is what `pre` became after `step` succeeded.
pub open spec fn stepped(pre: WriteCursor, post: WriteCursor, step: CursorStep) -> bool {
    match step {
        CursorStep::Write(data) => wrote(pre, post, Ok(()), data),
        CursorStep::Seek(q) => post.position() == q && post.origin() == pre.origin() && post.contents()
            == pre.contents(),
    }
}

/// The position after `steps` from position `start`: the target of the last
/// seek (or `start` when there was none), plus the bytes written since.
pub open spec fn position_after(start: nat, steps: Seq<CursorStep>) -> nat
    decreases steps.len(),
{
    if steps.len() == 0 {
        start
    } else {
        match steps.last() {
            CursorStep::Write(data) => position_after(start, steps.drop_last()) + data.len(),
            CursorStep::Seek(q) => q,
        }
    }
}

/// The position of a cursor counts the bytes written since its last seek, or
/// since it was made: after any sequence of successful writes and seeks,
/// `cursors[k]` being the cursor after the first `k` of `steps`, its position
/// is `position_after` its first position.
pub proof fn law_position_after_steps(cursors: Seq<WriteCursor>, steps: Seq<CursorStep>)
    requires
        cursors.len() == steps.len() + 1,
        forall|i: int| 0 <= i < steps.len() ==> stepped(cursors[i], cursors[i + 1], #[trigger] steps[i]),
    ensures
        cursors.last().position() == position_after(cursors[0].position(), steps),
    decreases steps.len(),
{
    if steps.len() > 0 {
        let n = steps.len() - 1;
        let pre_c = cursors.drop_last();
        let pre_s = steps.drop_last();
        assert forall|i: int| 0 <= i < pre_s.len() implies stepped(pre_c[i], pre_c[i + 1], #[trigger] pre_s[i]) by {
            assert(steps[i] == pre_s[i]);
        }
        law_position_after_steps(pre_c, pre_s);
        assert(stepped(cursors[n], cursors[n + 1], steps[n]));
        assert(pre_c.last() == cursors[n]);
        assert(steps.last() == steps[n]);
    }
}

/// The error of a write that would go past the largest buffer size.
fn room_error() -> (e: WriteError)
    ensures
        e matches WriteError::IoError(_),
{
    WriteError::IoError("write position past the largest buffer size".to_string())
}

/// Append the bytes of `s` to `v`.
pub(crate) fn append_bytes(v: &mut Vec<u8>, s: &[u8])
    ensures
        final(v)@ == old(v)@ + s@,
{
    let mut i: usize = 0;
    while i < s.len()
        invariant
            i <= s@.len(),
            v@ == old(v)@ + s@.take(i as int),
        decreases s@.len() - i,
    {
        v.push(s[i]);
        i = i + 1;
        assert(v@ =~= old(v)@ + s@.take(i as int));
    }
    assert(s@.take(s@.len() as int) =~= s@);
}

/// Two successful writes, one after the other, write the concatenation.
proof fn lemma_wrote_seq(a: WriteCursor, b: WriteCursor, c: WriteCursor, x: Seq<u8>, y: Seq<u8>)
    requires
        fits(a.offset(), x.len() + y.len()),
        wrote(a, b, Ok(()), x),
        wrote(b, c, Ok(()), y),
    ensures
        wrote(a, c, Ok(()), x + y),
{
    lemma_write_at_concat(a.contents(), a.offset(), x, y);
    if a.offset() == a.contents().len() {
        assert(a.contents() + x + y =~= a.contents() + (x + y));
    }
}

} // verus!
