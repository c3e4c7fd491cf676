use rosbag::error::Error;
use rosbag::writer::WriteError;

#[test]
fn write_error_messages() {
    assert_eq!(
        WriteError::UnknownConnectionId(42).message(),
        "rosbag::writer::WriteError: unknown connection ID: 42"
    );
    assert_eq!(
        WriteError::UnknownConnectionId(0).message(),
        "rosbag::writer::WriteError: unknown connection ID: 0"
    );
    assert_eq!(
        WriteError::UnknownConnectionId(4_294_967_295).message(),
        "rosbag::writer::WriteError: unknown connection ID: 4294967295"
    );
    assert_eq!(
        WriteError::InvalidWriterState("writer has been finished").message(),
        "rosbag::writer::WriteError: invalid writer state: writer has been finished"
    );
    assert_eq!(
        WriteError::IoError("disk full".to_string()).message(),
        "rosbag::writer::WriteError: I/O error: disk full"
    );
    assert_eq!(
        WriteError::Lz4CompressionError("x".to_string()).message(),
        "rosbag::writer::WriteError: LZ4 compression error: x"
    );
    assert_eq!(
        WriteError::Bzip2CompressionError("y".to_string()).message(),
        "rosbag::writer::WriteError: bzip2 compression error: y"
    );
}

#[test]
fn error_messages() {
    assert_eq!(Error::InvalidHeader.message(), "rosbag::Error: invalid header");
    assert_eq!(Error::OutOfBounds.message(), "rosbag::Error: out of bounds");
    assert_eq!(
        Error::UnexpectedChunkSectionRecord("connection").message(),
        "rosbag::Error: unexpected connection in the chunk section"
    );
    assert_eq!(
        Error::UnexpectedMessageRecord("chunk").message(),
        "rosbag::Error: unexpected chunk in chunk payload"
    );
    assert_eq!(
        Error::Lz4DecompressionError("bad frame".to_string()).message(),
        "rosbag::Error: LZ4 decompression error: bad frame"
    );
    assert_eq!(
        Error::UnknownConnectionId(1907).message(),
        "rosbag::Error: unknown connection ID: 1907"
    );
}
