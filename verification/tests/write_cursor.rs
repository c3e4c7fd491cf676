use rosbag::writer::{WriteCursor, WriteError};

#[test]
fn test_write_bytes() {
    let mut cursor = WriteCursor::new(Vec::new());
    cursor.write_bytes(b"hello").unwrap();
    assert_eq!(cursor.pos(), 5);
    assert_eq!(cursor.into_inner(), b"hello");
}

#[test]
fn test_write_u32() {
    let mut cursor = WriteCursor::new(Vec::new());
    cursor.write_u32(0x12345678).unwrap();
    assert_eq!(cursor.pos(), 4);
    // Little-endian: least significant byte first
    assert_eq!(cursor.into_inner(), vec![0x78, 0x56, 0x34, 0x12]);
}

#[test]
fn test_write_u64() {
    let mut cursor = WriteCursor::new(Vec::new());
    cursor.write_u64(0x123456789ABCDEF0).unwrap();
    assert_eq!(cursor.pos(), 8);
    // Little-endian
    assert_eq!(
        cursor.into_inner(),
        vec![0xF0, 0xDE, 0xBC, 0x9A, 0x78, 0x56, 0x34, 0x12]
    );
}

#[test]
fn test_write_time() {
    let mut cursor = WriteCursor::new(Vec::new());
    // 1.5 seconds = 1_500_000_000 nanoseconds
    let time_ns = 1_500_000_000u64;
    cursor.write_time(time_ns).unwrap();
    assert_eq!(cursor.pos(), 8);

    let data = cursor.into_inner();
    // secs = 1, nsecs = 500_000_000
    assert_eq!(data[0..4], [0x01, 0x00, 0x00, 0x00]);
    assert_eq!(data[4..8], [0x00, 0x65, 0xCD, 0x1D]);
}

#[test]
fn write_cursor_test_write_chunk() {
    let mut cursor = WriteCursor::new(Vec::new());
    cursor.write_chunk(b"test").unwrap();
    assert_eq!(cursor.pos(), 8); // 4 bytes length + 4 bytes data

    let data = cursor.into_inner();
    // Length = 4 in LE
    assert_eq!(data[0..4], [0x04, 0x00, 0x00, 0x00]);
    assert_eq!(&data[4..8], b"test");
}

#[test]
fn test_write_header_field() {
    let mut cursor = WriteCursor::new(Vec::new());
    cursor.write_header_field("name", b"value").unwrap();

    let data = cursor.into_inner();
    // Field length = len("name=value") = 10
    assert_eq!(data[0..4], [0x0A, 0x00, 0x00, 0x00]);
    assert_eq!(&data[4..], b"name=value");
}

#[test]
fn test_write_header_field_u32() {
    let mut cursor = WriteCursor::new(Vec::new());
    cursor.write_header_field_u32("count", 42).unwrap();

    let data = cursor.into_inner();
    // Field length = len("count=") + 4 = 10
    assert_eq!(data[0..4], [0x0A, 0x00, 0x00, 0x00]);
    assert_eq!(&data[4..10], b"count=");
    // 42 in LE
    assert_eq!(data[10..14], [0x2A, 0x00, 0x00, 0x00]);
}

#[test]
fn test_write_header_field_u64() {
    let mut cursor = WriteCursor::new(Vec::new());
    cursor.write_header_field_u64("offset", 0x100).unwrap();

    let data = cursor.into_inner();
    // Field length = len("offset=") + 8 = 15
    assert_eq!(data[0..4], [0x0F, 0x00, 0x00, 0x00]);
    assert_eq!(&data[4..11], b"offset=");
    // 0x100 in LE
    assert_eq!(
        data[11..19],
        [0x00, 0x01, 0x00, 0x00, 0x00, 0x00, 0x00, 0x00]
    );
}

#[test]
fn test_write_header_field_time() {
    let mut cursor = WriteCursor::new(Vec::new());
    // 2 seconds + 123456789 nanoseconds
    let time_ns = 2_123_456_789u64;
    cursor.write_header_field_time("time", time_ns).unwrap();

    let data = cursor.into_inner();
    // Field length = len("time=") + 8 = 13
    assert_eq!(data[0..4], [0x0D, 0x00, 0x00, 0x00]);
    assert_eq!(&data[4..9], b"time=");
    // secs = 2, nsecs = 123456789
    assert_eq!(data[9..13], [0x02, 0x00, 0x00, 0x00]);
    // 123456789 = 0x075BCD15
    assert_eq!(data[13..17], [0x15, 0xCD, 0x5B, 0x07]);
}

#[test]
fn test_write_header_field_str() {
    let mut cursor = WriteCursor::new(Vec::new());
    cursor.write_header_field_str("topic", "/test").unwrap();

    let data = cursor.into_inner();
    // Field length = len("topic=/test") = 11
    assert_eq!(data[0..4], [0x0B, 0x00, 0x00, 0x00]);
    assert_eq!(&data[4..], b"topic=/test");
}

#[test]
fn test_write_header_field_op() {
    let mut cursor = WriteCursor::new(Vec::new());
    cursor.write_header_field_op(0x03).unwrap();

    let data = cursor.into_inner();
    // Field length = len("op=") + 1 = 4
    assert_eq!(data[0..4], [0x04, 0x00, 0x00, 0x00]);
    assert_eq!(&data[4..7], b"op=");
    assert_eq!(data[7], 0x03);
}

#[test]
fn test_write_record() {
    let mut cursor = WriteCursor::new(Vec::new());
    cursor.write_record(b"header", b"data").unwrap();

    let data = cursor.into_inner();
    // header_len (4) + header (6) + data_len (4) + data (4) = 18 bytes
    assert_eq!(data.len(), 18);
    // Header length = 6
    assert_eq!(data[0..4], [0x06, 0x00, 0x00, 0x00]);
    assert_eq!(&data[4..10], b"header");
    // Data length = 4
    assert_eq!(data[10..14], [0x04, 0x00, 0x00, 0x00]);
    assert_eq!(&data[14..18], b"data");
}

#[test]
fn test_seek() {
    let mut cursor = WriteCursor::at_start(vec![0u8; 20]);
    cursor.write_bytes(b"hello").unwrap();
    assert_eq!(cursor.pos(), 5);

    cursor.seek(10).unwrap();
    assert_eq!(cursor.pos(), 10);

    cursor.write_bytes(b"world").unwrap();
    assert_eq!(cursor.pos(), 15);

    let data = cursor.into_inner();
    assert_eq!(&data[0..5], b"hello");
    assert_eq!(&data[10..15], b"world");
}

#[test]
fn test_pos_tracking() {
    let mut cursor = WriteCursor::new(Vec::new());
    assert_eq!(cursor.pos(), 0);

    cursor.write_u32(0).unwrap();
    assert_eq!(cursor.pos(), 4);

    cursor.write_u64(0).unwrap();
    assert_eq!(cursor.pos(), 12);

    cursor.write_bytes(b"test").unwrap();
    assert_eq!(cursor.pos(), 16);
}

#[test]
fn write_past_largest_buffer_fails_and_changes_nothing() {
    let mut cursor = WriteCursor::at_start(vec![1u8, 2, 3]);
    cursor.seek(u64::MAX).unwrap();
    let r = cursor.write_bytes(b"ab");
    assert!(matches!(r, Err(WriteError::IoError(_))));
    assert_eq!(cursor.pos(), u64::MAX);
    assert!(matches!(cursor.write_u32(7), Err(WriteError::IoError(_))));
    // Nothing to write always fits.
    cursor.write_bytes(b"").unwrap();
    assert_eq!(cursor.into_inner(), vec![1u8, 2, 3]);
}

#[test]
fn write_after_seek_past_end_fills_the_gap_with_zeros() {
    let mut cursor = WriteCursor::at_start(vec![1u8, 2]);
    cursor.seek(5).unwrap();
    cursor.write_bytes(b"x").unwrap();
    assert_eq!(cursor.pos(), 6);
    assert_eq!(cursor.into_inner(), vec![1u8, 2, 0, 0, 0, b'x']);
}

#[test]
fn write_inside_overwrites_and_extends() {
    let mut cursor = WriteCursor::at_start(vec![9u8; 4]);
    cursor.seek(2).unwrap();
    cursor.write_u32(0x0403_0201).unwrap();
    assert_eq!(cursor.into_inner(), vec![9u8, 9, 1, 2, 3, 4]);
}

#[test]
fn write_time_splits_seconds_and_nanoseconds() {
    let mut cursor = WriteCursor::new(Vec::new());
    cursor.write_time(1_234_567_890_123_456_789).unwrap();
    let data = cursor.into_inner();
    assert_eq!(u32::from_le_bytes([data[0], data[1], data[2], data[3]]), 1_234_567_890);
    assert_eq!(u32::from_le_bytes([data[4], data[5], data[6], data[7]]), 123_456_789);
}

#[test]
fn write_time_keeps_the_low_32_bits_of_the_seconds() {
    let mut cursor = WriteCursor::new(Vec::new());
    cursor.write_time((1u64 << 32) * 1_000_000_000 + 3_000_000_005).unwrap();
    let data = cursor.into_inner();
    assert_eq!(data, vec![3u8, 0, 0, 0, 5, 0, 0, 0]);
}

#[test]
fn new_cursor_appends_to_what_the_buffer_holds() {
    let mut cursor = WriteCursor::new(vec![1u8, 2]);
    assert_eq!(cursor.pos(), 0);
    cursor.write_bytes(b"ab").unwrap();
    assert_eq!(cursor.pos(), 2);
    cursor.write_u32(0x0403_0201).unwrap();
    assert_eq!(cursor.pos(), 6);
    assert_eq!(cursor.into_inner(), vec![1u8, 2, b'a', b'b', 1, 2, 3, 4]);
}

#[test]
fn bag_over_a_buffer_is_written_from_its_start() {
    let writer = rosbag::writer::RosBagWriterBuilder::default()
        .build(vec![0xffu8; 5000])
        .unwrap();
    let data = writer.finish().unwrap();
    assert!(data.starts_with(b"#ROSBAG V2.0\n"));
    assert_eq!(data.len(), 5000);
}
