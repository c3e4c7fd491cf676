use rosbag::writer::bag_writer::DEFAULT_CHUNK_SIZE;
use rosbag::writer::model::VERSION_STRING;
use rosbag::writer::{Channel, Compression, RosBagWriter, RosBagWriterBuilder};

#[test]
fn test_builder_default() {
    let builder = RosBagWriterBuilder::default();
    assert_eq!(builder.compression, Compression::Uncompressed);
    assert_eq!(builder.chunk_size, DEFAULT_CHUNK_SIZE);
}

#[test]
fn test_builder_with_compression() {
    let builder = RosBagWriterBuilder::default().compression(Compression::Lz4);
    assert_eq!(builder.compression, Compression::Lz4);
}

#[test]
fn test_builder_with_chunk_size() {
    let builder = RosBagWriterBuilder::default().chunk_size(1024);
    assert_eq!(builder.chunk_size, 1024);
}

#[test]
fn test_writer_creates_valid_header() {
    let buffer = Vec::new();
    let writer: RosBagWriter = RosBagWriterBuilder::default().build(buffer).unwrap();

    let data = writer.finish().unwrap();

    // Check version string
    assert!(data.starts_with(VERSION_STRING.as_bytes()));

    // Total size should be at least version + bag header
    assert!(data.len() >= VERSION_STRING.len() + 4096);
}

#[test]
fn test_register_connection() {
    let buffer = Vec::new();
    let mut writer: RosBagWriter = RosBagWriterBuilder::default().build(buffer).unwrap();

    let channel = writer
        .register_connection(
            "/test",
            "std_msgs/String",
            &[0u8; 16],
            "string data",
            "",
            false,
        )
        .unwrap();

    assert_eq!(channel.id(), 0);

    let channel2 = writer
        .register_connection(
            "/test2",
            "std_msgs/Int32",
            &[1u8; 16],
            "int32 data",
            "",
            false,
        )
        .unwrap();

    assert_eq!(channel2.id(), 1);
}

#[test]
fn test_write_message() {
    let buffer = Vec::new();
    let mut writer: RosBagWriter = RosBagWriterBuilder::default().build(buffer).unwrap();

    let channel = writer
        .register_connection(
            "/test",
            "std_msgs/String",
            &[0u8; 16],
            "string data",
            "",
            false,
        )
        .unwrap();

    // Write a message using the channel
    channel.write(&mut writer, 1_000_000_000, b"hello").unwrap();

    // Finish should succeed
    let _data = writer.finish().unwrap();
}

#[test]
fn test_write_message_unknown_connection() {
    let buffer = Vec::new();
    let mut writer: RosBagWriter = RosBagWriterBuilder::default().build(buffer).unwrap();

    // Create a fake Channel with an invalid connection ID
    let fake_channel = Channel::new(999);

    // Try to write with the fake channel
    let result = fake_channel.write(&mut writer, 1_000_000_000, b"hello");
    assert!(result.is_err());
}

#[test]
fn test_empty_bag() {
    let buffer = Vec::new();
    let writer: RosBagWriter = RosBagWriterBuilder::default().build(buffer).unwrap();

    // Empty bag should finish successfully
    let data = writer.finish().unwrap();

    // Should have version string and bag header
    assert!(data.starts_with(VERSION_STRING.as_bytes()));
}

#[test]
fn test_multiple_messages() {
    let buffer = Vec::new();
    let mut writer: RosBagWriter = RosBagWriterBuilder::default()
        .chunk_size(1024 * 1024) // Large chunk to keep all in one
        .build(buffer)
        .unwrap();

    let channel = writer
        .register_connection(
            "/test",
            "std_msgs/String",
            &[0u8; 16],
            "string data",
            "",
            false,
        )
        .unwrap();

    // Write multiple messages
    for i in 0..10 {
        channel
            .write(
                &mut writer,
                (i + 1) * 1_000_000_000,
                format!("msg{}", i).as_bytes(),
            )
            .unwrap();
    }

    let _data = writer.finish().unwrap();
}

#[test]
fn test_multiple_connections() {
    let buffer = Vec::new();
    let mut writer: RosBagWriter = RosBagWriterBuilder::default().build(buffer).unwrap();

    let channel1 = writer
        .register_connection(
            "/topic1",
            "std_msgs/String",
            &[0u8; 16],
            "string data",
            "",
            false,
        )
        .unwrap();
    let channel2 = writer
        .register_connection(
            "/topic2",
            "std_msgs/Int32",
            &[1u8; 16],
            "int32 data",
            "",
            false,
        )
        .unwrap();

    // Write to both connections
    channel1
        .write(&mut writer, 1_000_000_000, b"hello")
        .unwrap();
    channel2
        .write(&mut writer, 1_500_000_000, b"\x00\x00\x00\x2a")
        .unwrap();
    channel1
        .write(&mut writer, 2_000_000_000, b"world")
        .unwrap();

    let _data = writer.finish().unwrap();
}

#[test]
fn test_chunk_flushing() {
    let buffer = Vec::new();
    let mut writer: RosBagWriter = RosBagWriterBuilder::default()
        .chunk_size(100) // Very small chunk size to force flushing
        .build(buffer)
        .unwrap();

    let channel = writer
        .register_connection(
            "/test",
            "std_msgs/String",
            &[0u8; 16],
            "string data",
            "",
            false,
        )
        .unwrap();

    // Write enough data to trigger chunk flushing
    for i in 0..20 {
        channel
            .write(
                &mut writer,
                (i + 1) * 1_000_000_000,
                b"this is a longer message to fill up the chunk",
            )
            .unwrap();
    }

    let _data = writer.finish().unwrap();
}

#[test]
fn test_finish_twice_fails() {
    let buffer = Vec::new();
    let writer: RosBagWriter = RosBagWriterBuilder::default().build(buffer).unwrap();

    // First finish should succeed
    let _result = writer.finish();

    // Note: Can't test double finish easily since finish() consumes self
    // The finished flag prevents writes after finishing though
}

#[test]
fn test_write_after_finish_preparation() {
    // Test that we can't write after marking finished
    let buffer = Vec::new();
    let mut writer: RosBagWriter = RosBagWriterBuilder::default().build(buffer).unwrap();

    let channel = writer
        .register_connection(
            "/test",
            "std_msgs/String",
            &[0u8; 16],
            "string data",
            "",
            false,
        )
        .unwrap();

    channel.write(&mut writer, 1_000_000_000, b"hello").unwrap();

    // After finish, the writer is consumed so we can't write anyway
    let _data = writer.finish().unwrap();
}
