use rosbag::writer::op;
use rosbag::writer::records::{
    write_bag_header, write_chunk, write_chunk_info, write_connection, write_index_data,
    write_message_data, ChunkInfoEntry, IndexDataEntry, BAG_HEADER_SIZE,
};
use rosbag::writer::{Compression, WriteCursor};

fn find_header_field<'a>(header: &'a [u8], name: &str) -> Option<&'a [u8]> {
    let mut pos = 0;
    while pos + 4 <= header.len() {
        let field_len = u32::from_le_bytes([
            header[pos],
            header[pos + 1],
            header[pos + 2],
            header[pos + 3],
        ]) as usize;
        pos += 4;
        if pos + field_len > header.len() {
            break;
        }
        let field = &header[pos..pos + field_len];
        if let Some(eq_pos) = field.iter().position(|&b| b == b'=') {
            let field_name = &field[..eq_pos];
            if field_name == name.as_bytes() {
                return Some(&field[eq_pos + 1..]);
            }
        }
        pos += field_len;
    }
    None
}

#[test]
fn test_write_bag_header() {
    let mut cursor = WriteCursor::new(Vec::new());
    write_bag_header(&mut cursor, 12345, 3, 2).unwrap();

    let data = cursor.into_inner();
    // Should be exactly BAG_HEADER_SIZE bytes
    assert_eq!(data.len(), BAG_HEADER_SIZE as usize);

    // Parse header length
    let header_len = u32::from_le_bytes([data[0], data[1], data[2], data[3]]) as usize;
    let header = &data[4..4 + header_len];

    // Check op field
    let op = find_header_field(header, "op").unwrap();
    assert_eq!(op, &[op::BAG_HEADER]);

    // Check index_pos
    let index_pos = find_header_field(header, "index_pos").unwrap();
    assert_eq!(u64::from_le_bytes(index_pos.try_into().unwrap()), 12345);

    // Check conn_count
    let conn_count = find_header_field(header, "conn_count").unwrap();
    assert_eq!(u32::from_le_bytes(conn_count.try_into().unwrap()), 3);

    // Check chunk_count
    let chunk_count = find_header_field(header, "chunk_count").unwrap();
    assert_eq!(u32::from_le_bytes(chunk_count.try_into().unwrap()), 2);
}

#[test]
fn test_write_connection() {
    let mut cursor = WriteCursor::new(Vec::new());
    let md5sum = [
        0x12, 0x34, 0x56, 0x78, 0x9A, 0xBC, 0xDE, 0xF0, 0x11, 0x22, 0x33, 0x44, 0x55, 0x66,
        0x77, 0x88,
    ];
    write_connection(
        &mut cursor,
        1,
        "/test_topic",
        "std_msgs/String",
        &md5sum,
        "string data",
        "",
        false,
    )
    .unwrap();

    let data = cursor.into_inner();

    // Parse header
    let header_len = u32::from_le_bytes([data[0], data[1], data[2], data[3]]) as usize;
    let header = &data[4..4 + header_len];

    // Check op
    let op = find_header_field(header, "op").unwrap();
    assert_eq!(op, &[op::CONNECTION]);

    // Check conn ID
    let conn = find_header_field(header, "conn").unwrap();
    assert_eq!(u32::from_le_bytes(conn.try_into().unwrap()), 1);

    // Check topic in header
    let topic = find_header_field(header, "topic").unwrap();
    assert_eq!(topic, b"/test_topic");

    // Parse data section
    let data_start = 4 + header_len;
    let data_len = u32::from_le_bytes([
        data[data_start],
        data[data_start + 1],
        data[data_start + 2],
        data[data_start + 3],
    ]) as usize;
    let conn_data = &data[data_start + 4..data_start + 4 + data_len];

    // Check type in data
    let msg_type = find_header_field(conn_data, "type").unwrap();
    assert_eq!(msg_type, b"std_msgs/String");

    // Check md5sum (should be hex encoded)
    let md5 = find_header_field(conn_data, "md5sum").unwrap();
    assert_eq!(md5, b"123456789abcdef01122334455667788");
}

#[test]
fn test_write_message_data() {
    let mut cursor = WriteCursor::new(Vec::new());
    let time_ns = 1_500_000_000u64; // 1.5 seconds
    write_message_data(&mut cursor, 2, time_ns, b"hello world").unwrap();

    let data = cursor.into_inner();

    // Parse header
    let header_len = u32::from_le_bytes([data[0], data[1], data[2], data[3]]) as usize;
    let header = &data[4..4 + header_len];

    // Check op
    let op = find_header_field(header, "op").unwrap();
    assert_eq!(op, &[op::MESSAGE_DATA]);

    // Check conn
    let conn = find_header_field(header, "conn").unwrap();
    assert_eq!(u32::from_le_bytes(conn.try_into().unwrap()), 2);

    // Check time (secs=1, nsecs=500_000_000)
    let time = find_header_field(header, "time").unwrap();
    let secs = u32::from_le_bytes(time[0..4].try_into().unwrap());
    let nsecs = u32::from_le_bytes(time[4..8].try_into().unwrap());
    assert_eq!(secs, 1);
    assert_eq!(nsecs, 500_000_000);

    // Check message data
    let data_start = 4 + header_len;
    let data_len = u32::from_le_bytes([
        data[data_start],
        data[data_start + 1],
        data[data_start + 2],
        data[data_start + 3],
    ]) as usize;
    let msg_data = &data[data_start + 4..data_start + 4 + data_len];
    assert_eq!(msg_data, b"hello world");
}

#[test]
fn records_test_write_chunk() {
    let mut cursor = WriteCursor::new(Vec::new());
    write_chunk(&mut cursor, Compression::Uncompressed, 100, b"chunk data here").unwrap();

    let data = cursor.into_inner();

    // Parse header
    let header_len = u32::from_le_bytes([data[0], data[1], data[2], data[3]]) as usize;
    let header = &data[4..4 + header_len];

    // Check op
    let op = find_header_field(header, "op").unwrap();
    assert_eq!(op, &[op::CHUNK]);

    // Check compression
    let compression = find_header_field(header, "compression").unwrap();
    assert_eq!(compression, b"none");

    // Check size (uncompressed)
    let size = find_header_field(header, "size").unwrap();
    assert_eq!(u32::from_le_bytes(size.try_into().unwrap()), 100);
}

#[test]
fn test_write_index_data() {
    let mut cursor = WriteCursor::new(Vec::new());
    let entries = vec![
        IndexDataEntry {
            time_ns: 1_000_000_000,
            offset: 0,
        },
        IndexDataEntry {
            time_ns: 2_000_000_000,
            offset: 100,
        },
    ];
    write_index_data(&mut cursor, 5, &entries).unwrap();

    let data = cursor.into_inner();

    // Parse header
    let header_len = u32::from_le_bytes([data[0], data[1], data[2], data[3]]) as usize;
    let header = &data[4..4 + header_len];

    // Check op
    let op = find_header_field(header, "op").unwrap();
    assert_eq!(op, &[op::INDEX_DATA]);

    // Check ver
    let ver = find_header_field(header, "ver").unwrap();
    assert_eq!(u32::from_le_bytes(ver.try_into().unwrap()), 1);

    // Check conn
    let conn = find_header_field(header, "conn").unwrap();
    assert_eq!(u32::from_le_bytes(conn.try_into().unwrap()), 5);

    // Check count
    let count = find_header_field(header, "count").unwrap();
    assert_eq!(u32::from_le_bytes(count.try_into().unwrap()), 2);
}

#[test]
fn test_write_chunk_info() {
    let mut cursor = WriteCursor::new(Vec::new());
    let entries = vec![
        ChunkInfoEntry {
            conn_id: 0,
            count: 5,
        },
        ChunkInfoEntry {
            conn_id: 1,
            count: 3,
        },
    ];
    write_chunk_info(&mut cursor, 4096, 1_000_000_000, 2_000_000_000, &entries).unwrap();

    let data = cursor.into_inner();

    // Parse header
    let header_len = u32::from_le_bytes([data[0], data[1], data[2], data[3]]) as usize;
    let header = &data[4..4 + header_len];

    // Check op
    let op = find_header_field(header, "op").unwrap();
    assert_eq!(op, &[op::CHUNK_INFO]);

    // Check ver
    let ver = find_header_field(header, "ver").unwrap();
    assert_eq!(u32::from_le_bytes(ver.try_into().unwrap()), 1);

    // Check chunk_pos
    let chunk_pos = find_header_field(header, "chunk_pos").unwrap();
    assert_eq!(u64::from_le_bytes(chunk_pos.try_into().unwrap()), 4096);

    // Check count
    let count = find_header_field(header, "count").unwrap();
    assert_eq!(u32::from_le_bytes(count.try_into().unwrap()), 2);
}
