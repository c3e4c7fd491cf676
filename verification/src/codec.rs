//! The calls into outside crates: little-endian integers (byteorder),
//! lower-case hex (base16ct), and chunk compression (lz4, bzip2).
use crate::format::{le32, le64};
use byteorder::{ByteOrder, LittleEndian};
use lz4::liblz4::{BlockChecksum, BlockMode, BlockSize, ContentChecksum};
use vstd::prelude::*;

verus! {

/// Calls byteorder's `LittleEndian::write_u32` on a four-byte buffer.
/// Trusted: the buffer then holds the little-endian bytes of `v`, as
/// byteorder documents and its source (`n.to_le_bytes()`) shows.
#[verifier::external_body]
pub(crate) fn le_u32_bytes(v: u32) -> (r: [u8; 4])
    ensures
        r@ == le32(v),
{
    let mut buf = [0u8; 4];
    LittleEndian::write_u32(&mut buf, v);
    buf
}

/// Calls byteorder's `LittleEndian::write_u64` on an eight-byte buffer.
/// Trusted: the buffer then holds the little-endian bytes of `v`.
#[verifier::external_body]
pub(crate) fn le_u64_bytes(v: u64) -> (r: [u8; 8])
    ensures
        r@ == le64(v),
{
    let mut buf = [0u8; 8];
    LittleEndian::write_u64(&mut buf, v);
    buf
}

/// The ASCII lower-case hex digit of a nibble.
pub open spec fn hex_digit(n: u8) -> u8 {
    if n < 10 {
        (0x30 + n) as u8
    } else {
        (0x57 + n) as u8
    }
}

/// Lower-case hex of `bytes`: two digits per byte, high nibble first.
pub open spec fn lower_hex(bytes: Seq<u8>) -> Seq<u8> {
    Seq::new(
        2 * bytes.len(),
        |i: int|
            if i % 2 == 0 {
                hex_digit(bytes[i / 2] / 16)
            } else {
                hex_digit(bytes[i / 2] % 16)
            },
    )
}

/// Calls base16ct's `lower::encode` with a 32-byte destination.
/// Trusted: that destination is exactly large enough, so the call succeeds
/// and fills it with the lower-case hex digits of the 16 input bytes, high
/// nibble first (its source encodes `src >> 4`, then `src & 0x0f`).
#[verifier::external_body]
pub(crate) fn lower_hex_16(src: &[u8; 16]) -> (r: [u8; 32])
    ensures
        r@ == lower_hex(src@),
{
    let mut out = [0u8; 32];
    let _ = base16ct::lower::encode(src, &mut out);
    out
}

/// What lz4, configured as ROS's roslz4 expects (independent 1 MB blocks, no
/// block checksum, content checksum), produces as a frame for `data`.
pub uninterp spec fn lz4_frame(data: Seq<u8>) -> Seq<u8>;

/// Calls lz4's `EncoderBuilder` with the ROS settings, feeds it `data`
/// through `std::io::copy`, and finishes the frame.
/// Trusted: the call succeeds, with the frame `lz4_frame(data)`. In lz4's
/// source the encoder reports an error only when its inner writer does (here
/// a `Vec<u8>`, whose writes do not fail) or when the LZ4 frame library
/// does, and that library fails only when it cannot allocate: every output
/// buffer it is handed is as large as its own compress bound.
#[verifier::external_body]
pub(crate) fn lz4_compress(data: &[u8]) -> (r: Result<Vec<u8>, String>)
    ensures
        r is Ok,
        r matches Ok(c) ==> c@ == lz4_frame(data@),
{
    let mut builder = lz4::EncoderBuilder::new();
    builder.block_mode(BlockMode::Independent).block_size(BlockSize::Max1MB);
    builder.block_checksum(BlockChecksum::NoBlockChecksum).checksum(ContentChecksum::ChecksumEnabled);
    let mut enc = match builder.build(Vec::new()) {
        Ok(e) => e,
        Err(e) => return Err(e.to_string()),
    };
    if let Err(e) = std::io::copy(&mut std::io::Cursor::new(data), &mut enc) {
        return Err(e.to_string());
    }
    let (out, res) = enc.finish();
    match res {
        Ok(()) => Ok(out),
        Err(e) => Err(e.to_string()),
    }
}

/// What bzip2 at its default compression level produces as a stream for `data`.
pub uninterp spec fn bzip2_stream(data: Seq<u8>) -> Seq<u8>;

/// Calls bzip2's `write::BzEncoder` at the default level, writes `data`, and
/// finishes the stream.
/// Trusted: the call succeeds, with the bytes `bzip2_stream(data)`. In
/// bzip2's source the encoder reports an error only when its inner writer
/// does, and that writer here is a `Vec<u8>`, whose writes do not fail.
#[verifier::external_body]
pub(crate) fn bzip2_compress(data: &[u8]) -> (r: Result<Vec<u8>, String>)
    ensures
        r is Ok,
        r matches Ok(c) ==> c@ == bzip2_stream(data@),
{
    let mut enc = bzip2::write::BzEncoder::new(Vec::new(), bzip2::Compression::default());
    if let Err(e) = std::io::Write::write_all(&mut enc, data) {
        return Err(e.to_string());
    }
    match enc.finish() {
        Ok(out) => Ok(out),
        Err(e) => Err(e.to_string()),
    }
}

} // verus!
