//! Bags written by the writer, read back by a small reader written here.
use std::io::Read;

use rosbag::writer::op;
use rosbag::writer::{Channel, Compression, RosBagWriter, RosBagWriterBuilder, WriteError};

fn u32_at(b: &[u8], p: usize) -> u32 {
    u32::from_le_bytes([b[p], b[p + 1], b[p + 2], b[p + 3]])
}

fn u64_at(b: &[u8], p: usize) -> u64 {
    let mut a = [0u8; 8];
    a.copy_from_slice(&b[p..p + 8]);
    u64::from_le_bytes(a)
}

fn time_at(b: &[u8], p: usize) -> u64 {
    u32_at(b, p) as u64 * 1_000_000_000 + u32_at(b, p + 4) as u64
}

/// Splits `bytes` into (header, data) records.
fn records(bytes: &[u8]) -> Vec<(Vec<u8>, Vec<u8>)> {
    let mut out = Vec::new();
    let mut p = 0;
    while p < bytes.len() {
        let hl = u32_at(bytes, p) as usize;
        let header = bytes[p + 4..p + 4 + hl].to_vec();
        p += 4 + hl;
        let dl = u32_at(bytes, p) as usize;
        let data = bytes[p + 4..p + 4 + dl].to_vec();
        p += 4 + dl;
        out.push((header, data));
    }
    assert_eq!(p, bytes.len());
    out
}

/// The value of header field `name`.
fn field(header: &[u8], name: &str) -> Option<Vec<u8>> {
    let mut p = 0;
    while p < header.len() {
        let len = u32_at(header, p) as usize;
        let f = &header[p + 4..p + 4 + len];
        p += 4 + len;
        let eq = f.iter().position(|&c| c == b'=').unwrap();
        if &f[..eq] == name.as_bytes() {
            return Some(f[eq + 1..].to_vec());
        }
    }
    None
}

fn op_of(header: &[u8]) -> u8 {
    field(header, "op").unwrap()[0]
}

struct ReadBag {
    index_pos: u64,
    conn_count: u32,
    chunk_count: u32,
    /// (chunk position, uncompressed chunk data, index data records after it)
    chunks: Vec<(u64, Vec<u8>, Vec<(Vec<u8>, Vec<u8>)>)>,
    /// The records of the index section.
    index: Vec<(Vec<u8>, Vec<u8>)>,
}

fn decompress(name: &[u8], data: &[u8]) -> Vec<u8> {
    let mut out = Vec::new();
    match name {
        b"none" => out.extend_from_slice(data),
        b"lz4" => {
            lz4::Decoder::new(data).unwrap().read_to_end(&mut out).unwrap();
        }
        b"bz2" => {
            bzip2::read::BzDecoder::new(data).read_to_end(&mut out).unwrap();
        }
        _ => panic!("unknown compression"),
    }
    out
}

fn read_bag(bytes: &[u8]) -> ReadBag {
    assert!(bytes.starts_with(b"#ROSBAG V2.0\n"));
    let header_rec = &bytes[13..13 + 4096];
    let hl = u32_at(header_rec, 0) as usize;
    let header = &header_rec[4..4 + hl];
    assert_eq!(op_of(header), op::BAG_HEADER);
    let index_pos = u64_at(&field(header, "index_pos").unwrap(), 0);
    let conn_count = u32_at(&field(header, "conn_count").unwrap(), 0);
    let chunk_count = u32_at(&field(header, "chunk_count").unwrap(), 0);
    let mut chunks: Vec<(u64, Vec<u8>, Vec<(Vec<u8>, Vec<u8>)>)> = Vec::new();
    let mut p = 13 + 4096;
    while p < index_pos as usize {
        let hl = u32_at(bytes, p) as usize;
        let h = bytes[p + 4..p + 4 + hl].to_vec();
        let dl = u32_at(bytes, p + 4 + hl) as usize;
        let d = &bytes[p + 8 + hl..p + 8 + hl + dl];
        match op_of(&h) {
            op::CHUNK => {
                let plain = decompress(&field(&h, "compression").unwrap(), d);
                assert_eq!(u32_at(&field(&h, "size").unwrap(), 0) as usize, plain.len());
                chunks.push((p as u64, plain, Vec::new()));
            }
            op::INDEX_DATA => chunks.last_mut().unwrap().2.push((h, d.to_vec())),
            _ => panic!("unexpected record in the chunk section"),
        }
        p += 8 + hl + dl;
    }
    assert_eq!(p, index_pos as usize);
    let index = records(&bytes[p..]);
    ReadBag { index_pos, conn_count, chunk_count, chunks, index }
}

/// (connection, time, data) of every message, in order.
fn messages(bag: &ReadBag) -> Vec<(u32, u64, Vec<u8>)> {
    let mut out = Vec::new();
    for (_, plain, _) in &bag.chunks {
        for (h, d) in records(plain) {
            if op_of(&h) == op::MESSAGE_DATA {
                let conn = u32_at(&field(&h, "conn").unwrap(), 0);
                let time = time_at(&field(&h, "time").unwrap(), 0);
                out.push((conn, time, d));
            }
        }
    }
    out
}

fn register(writer: &mut RosBagWriter, topic: &str, md5: u8) -> Channel {
    writer
        .register_connection(topic, "std_msgs/String", &[md5; 16], "string data", "", false)
        .unwrap()
}

#[test]
fn test_roundtrip_single_message() {
    let mut writer = RosBagWriterBuilder::default().build(Vec::new()).unwrap();
    let channel = register(&mut writer, "/test_topic", 0);
    channel.write(&mut writer, 1_000_000_000, b"hello world").unwrap();
    let bytes = writer.finish().unwrap();
    let bag = read_bag(&bytes);
    assert_eq!(bag.conn_count, 1);
    assert_eq!(bag.chunk_count, 1);
    assert_eq!(messages(&bag), vec![(0, 1_000_000_000, b"hello world".to_vec())]);
}

#[test]
fn test_roundtrip_multiple_messages() {
    let mut writer = RosBagWriterBuilder::default().build(Vec::new()).unwrap();
    let channel = register(&mut writer, "/test_topic", 0);
    for i in 0..5u64 {
        let msg = format!("message {}", i);
        channel.write(&mut writer, (i + 1) * 1_000_000_000, msg.as_bytes()).unwrap();
    }
    let bag = read_bag(&writer.finish().unwrap());
    let msgs = messages(&bag);
    assert_eq!(msgs.len(), 5);
    for (i, (conn_id, time, data)) in msgs.iter().enumerate() {
        assert_eq!(*conn_id, 0);
        assert_eq!(*time, (i as u64 + 1) * 1_000_000_000);
        assert_eq!(*data, format!("message {}", i).as_bytes());
    }
}

#[test]
fn test_roundtrip_multiple_connections() {
    let mut writer = RosBagWriterBuilder::default().build(Vec::new()).unwrap();
    let channel1 = register(&mut writer, "/topic1", 0);
    let channel2 = register(&mut writer, "/topic2", 1);
    channel1.write(&mut writer, 1_000_000_000, b"msg1").unwrap();
    channel2.write(&mut writer, 1_500_000_000, b"\x2a\x00\x00\x00").unwrap();
    channel1.write(&mut writer, 2_000_000_000, b"msg2").unwrap();
    let bag = read_bag(&writer.finish().unwrap());
    assert_eq!(bag.conn_count, 2);
    assert_eq!(
        messages(&bag),
        vec![
            (0, 1_000_000_000, b"msg1".to_vec()),
            (1, 1_500_000_000, b"\x2a\x00\x00\x00".to_vec()),
            (0, 2_000_000_000, b"msg2".to_vec()),
        ]
    );
}

#[test]
fn test_roundtrip_empty_bag() {
    let writer = RosBagWriterBuilder::default().build(Vec::new()).unwrap();
    let bytes = writer.finish().unwrap();
    let bag = read_bag(&bytes);
    assert_eq!(bag.conn_count, 0);
    assert_eq!(bag.chunk_count, 0);
    assert_eq!(bag.index_pos, 13 + 4096);
    assert_eq!(bytes.len(), 13 + 4096);
    assert!(bag.index.is_empty());
}

#[test]
fn test_roundtrip_lz4_compression() {
    let mut writer = RosBagWriterBuilder::default()
        .compression(Compression::Lz4)
        .build(Vec::new())
        .unwrap();
    let channel = register(&mut writer, "/test", 0);
    channel.write(&mut writer, 1_000_000_000, b"compressed message").unwrap();
    let bytes = writer.finish().unwrap();
    let bag = read_bag(&bytes);
    assert_eq!(bag.conn_count, 1);
    assert_eq!(messages(&bag), vec![(0, 1_000_000_000, b"compressed message".to_vec())]);
}

#[test]
fn test_roundtrip_bzip2_compression() {
    let mut writer = RosBagWriterBuilder::default()
        .compression(Compression::Bzip2)
        .build(Vec::new())
        .unwrap();
    let channel = register(&mut writer, "/test", 0);
    channel.write(&mut writer, 1_000_000_000, b"bzip2 compressed").unwrap();
    let bag = read_bag(&writer.finish().unwrap());
    assert_eq!(messages(&bag), vec![(0, 1_000_000_000, b"bzip2 compressed".to_vec())]);
}

#[test]
fn test_roundtrip_multiple_chunks() {
    let mut writer = RosBagWriterBuilder::default().chunk_size(100).build(Vec::new()).unwrap();
    let channel = register(&mut writer, "/test", 0);
    for i in 0..200u64 {
        let msg = format!("message number {}", i);
        channel.write(&mut writer, (i + 1) * 1_000_000_000, msg.as_bytes()).unwrap();
    }
    let bag = read_bag(&writer.finish().unwrap());
    assert!(bag.chunk_count > 1);
    assert_eq!(bag.chunk_count as usize, bag.chunks.len());
    let msgs = messages(&bag);
    assert_eq!(msgs.len(), 200);
    for (i, (conn, time, data)) in msgs.iter().enumerate() {
        assert_eq!(*conn, 0);
        assert_eq!(*time, (i as u64 + 1) * 1_000_000_000);
        assert_eq!(*data, format!("message number {}", i).as_bytes());
    }
}

#[test]
fn compressed_chunks_differ_from_their_payload() {
    for compression in [Compression::Lz4, Compression::Bzip2] {
        let mut writer = RosBagWriterBuilder::default()
            .compression(compression)
            .build(Vec::new())
            .unwrap();
        let channel = register(&mut writer, "/test", 0);
        for i in 0..50u64 {
            channel.write(&mut writer, i, &[7u8; 64]).unwrap();
        }
        let bytes = writer.finish().unwrap();
        let bag = read_bag(&bytes);
        let (pos, plain, _) = &bag.chunks[0];
        let p = *pos as usize;
        let hl = u32_at(&bytes, p) as usize;
        let stored = u32_at(&bytes, p + 4 + hl) as usize;
        // The payload is very repetitive: the stored data is much smaller.
        assert!(stored < plain.len() / 2);
        assert_eq!(messages(&bag).len(), 50);
    }
}

#[test]
fn index_entries_locate_their_messages() {
    let mut writer = RosBagWriterBuilder::default().chunk_size(300).build(Vec::new()).unwrap();
    let a = register(&mut writer, "/a", 0);
    let b = register(&mut writer, "/b", 1);
    for i in 0..30u64 {
        let ch = if i % 3 == 0 { b } else { a };
        ch.write(&mut writer, 5_000_000_000 + i * 250_000_000, format!("m{}", i).as_bytes())
            .unwrap();
    }
    let bag = read_bag(&writer.finish().unwrap());
    assert!(bag.chunks.len() > 1);
    let mut seen = 0;
    for (_, plain, index) in &bag.chunks {
        let mut conns: Vec<u32> = Vec::new();
        for (h, d) in index {
            assert_eq!(op_of(h), op::INDEX_DATA);
            assert_eq!(u32_at(&field(h, "ver").unwrap(), 0), 1);
            let conn = u32_at(&field(h, "conn").unwrap(), 0);
            let count = u32_at(&field(h, "count").unwrap(), 0) as usize;
            assert_eq!(d.len(), 12 * count);
            conns.push(conn);
            for k in 0..count {
                let time = time_at(d, 12 * k);
                let off = u32_at(d, 12 * k + 8) as usize;
                let hl = u32_at(plain, off) as usize;
                let mh = &plain[off + 4..off + 4 + hl];
                assert_eq!(op_of(mh), op::MESSAGE_DATA);
                assert_eq!(u32_at(&field(mh, "conn").unwrap(), 0), conn);
                assert_eq!(time_at(&field(mh, "time").unwrap(), 0), time);
                seen += 1;
            }
        }
        // One index record per connection with messages, by increasing id.
        let mut sorted = conns.clone();
        sorted.sort();
        sorted.dedup();
        assert_eq!(conns, sorted);
    }
    assert_eq!(seen, 30);
}

#[test]
fn index_section_lists_connections_and_chunks() {
    let mut writer = RosBagWriterBuilder::default().chunk_size(200).build(Vec::new()).unwrap();
    let md5: [u8; 16] = [
        0x99, 0x2c, 0xe8, 0xa1, 0x68, 0x7c, 0xec, 0x8c, 0x8b, 0xd8, 0x83, 0xec, 0x73, 0xca, 0x41,
        0xd1,
    ];
    let a = writer
        .register_connection("/chatter", "std_msgs/String", &md5, "string data", "/talker", true)
        .unwrap();
    for i in 0..12u64 {
        a.write(&mut writer, 2_000_000_000 + i, b"0123456789").unwrap();
    }
    let bag = read_bag(&writer.finish().unwrap());
    let n = bag.chunks.len();
    assert_eq!(bag.chunk_count as usize, n);
    assert_eq!(bag.index.len(), 1 + n);
    let (ch, cd) = &bag.index[0];
    assert_eq!(op_of(ch), op::CONNECTION);
    assert_eq!(u32_at(&field(ch, "conn").unwrap(), 0), 0);
    assert_eq!(field(ch, "topic").unwrap(), b"/chatter");
    // The connection data is itself a list of fields.
    assert_eq!(field(cd, "type").unwrap(), b"std_msgs/String");
    assert_eq!(field(cd, "md5sum").unwrap(), b"992ce8a1687cec8c8bd883ec73ca41d1");
    assert_eq!(field(cd, "callerid").unwrap(), b"/talker");
    assert_eq!(field(cd, "latching").unwrap(), b"1");
    let mut total = 0;
    for (k, (h, d)) in bag.index[1..].iter().enumerate() {
        assert_eq!(op_of(h), op::CHUNK_INFO);
        assert_eq!(u64_at(&field(h, "chunk_pos").unwrap(), 0), bag.chunks[k].0);
        assert_eq!(u32_at(&field(h, "count").unwrap(), 0), 1);
        assert_eq!(u32_at(d, 0), 0);
        total += u32_at(d, 4);
        let start = time_at(&field(h, "start_time").unwrap(), 0);
        let end = time_at(&field(h, "end_time").unwrap(), 0);
        assert!(start <= end);
    }
    assert_eq!(total, 12);
}

#[test]
fn unknown_connection_is_refused_and_changes_nothing() {
    let mut writer = RosBagWriterBuilder::default().build(Vec::new()).unwrap();
    let channel = register(&mut writer, "/test", 0);
    let r = Channel::new(1).write(&mut writer, 1, b"x");
    assert!(matches!(r, Err(WriteError::UnknownConnectionId(1))));
    channel.write(&mut writer, 2, b"y").unwrap();
    let bag = read_bag(&writer.finish().unwrap());
    assert_eq!(messages(&bag), vec![(0, 2, b"y".to_vec())]);
}

#[test]
fn empty_caller_id_is_left_out() {
    let mut writer = RosBagWriterBuilder::default().build(Vec::new()).unwrap();
    register(&mut writer, "/t", 3);
    let bag = read_bag(&writer.finish().unwrap());
    assert_eq!(bag.chunk_count, 1);
    let (_, cd) = &bag.index[0];
    assert_eq!(field(cd, "callerid"), None);
    assert_eq!(field(cd, "latching").unwrap(), b"0");
    assert_eq!(field(cd, "md5sum").unwrap(), b"03030303030303030303030303030303");
}

#[test]
fn chunk_info_counts_and_times_match_the_chunk() {
    let mut writer = RosBagWriterBuilder::default().chunk_size(400).build(Vec::new()).unwrap();
    let a = register(&mut writer, "/a", 0);
    let b = register(&mut writer, "/b", 1);
    let times: [u64; 9] = [
        9_000_000_000,
        3_000_000_001,
        7_500_000_000,
        1_000_000_000,
        8_000_000_000,
        2_000_000_000,
        6_000_000_000,
        4_000_000_000,
        5_000_000_000,
    ];
    for (i, t) in times.iter().enumerate() {
        let ch = if i % 2 == 0 { a } else { b };
        ch.write(&mut writer, *t, b"payload-bytes").unwrap();
    }
    let bag = read_bag(&writer.finish().unwrap());
    assert_eq!(bag.index.len(), 2 + bag.chunks.len());
    let mut all = 0;
    for (k, (h, d)) in bag.index[2..].iter().enumerate() {
        let (_, plain, _) = &bag.chunks[k];
        let msgs: Vec<(u32, u64)> = records(plain)
            .into_iter()
            .filter(|(mh, _)| op_of(mh) == op::MESSAGE_DATA)
            .map(|(mh, _)| {
                (u32_at(&field(&mh, "conn").unwrap(), 0), time_at(&field(&mh, "time").unwrap(), 0))
            })
            .collect();
        let start = time_at(&field(h, "start_time").unwrap(), 0);
        let end = time_at(&field(h, "end_time").unwrap(), 0);
        assert_eq!(start, msgs.iter().map(|m| m.1).min().unwrap());
        assert_eq!(end, msgs.iter().map(|m| m.1).max().unwrap());
        let n = u32_at(&field(h, "count").unwrap(), 0) as usize;
        let mut total = 0usize;
        for e in 0..n {
            let conn = u32_at(d, 8 * e);
            let count = u32_at(d, 8 * e + 4) as usize;
            assert_eq!(count, msgs.iter().filter(|m| m.0 == conn).count());
            total += count;
        }
        assert_eq!(total, msgs.len());
        all += total;
    }
    assert_eq!(all, times.len());
}
