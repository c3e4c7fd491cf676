# rosbag

A writer for ROS bag files (format version 2.0), verified with Verus.

- `src/writer/` — the writer: `WriteCursor` (a seekable little-endian byte
  cursor over a `Vec<u8>`), the record encoders of `records`, and
  `RosBagWriter` with its builder and `Channel` handles. `model` gives the
  abstract state of a writer and the bytes it stands for; the writer's
  contracts are stated over it.
- `src/format.rs` — the byte encodings the format is made of, as
  mathematical functions.
- `src/decode.rs` — how a reader takes those bytes apart, as mathematical
  functions; `src/readback.rs` proves that a finished bag reads back the
  messages written, and that the index entries point at their messages.
- `src/codec.rs` — the calls into byteorder, base16ct, lz4 and bzip2.
- `app/` — bag files on disk (a writer that finalizes its file when
  dropped) and the error types with `Display` and `std::error::Error`.
