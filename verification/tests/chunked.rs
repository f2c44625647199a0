use shared_slab::chunked::Chunked;

#[test]
fn words_are_big_endian() {
    let mut c = Chunked::new(vec![0u8; 64], 16);
    c.write_u32(1, 2, 0x0102_0304);
    let bytes = c.into_inner();
    assert_eq!(&bytes[24..28], &[1u8, 2, 3, 4]);
    assert!(bytes[..24].iter().all(|b| *b == 0));
    assert!(bytes[28..].iter().all(|b| *b == 0));
}

#[test]
fn word_written_is_word_read() {
    let mut c = Chunked::new(vec![0u8; 64], 16);
    for (i, val) in [0u32, 1, 255, 256, 0xdead_beef, u32::MAX].iter().enumerate() {
        c.write_u32(i % 4, i % 3, *val);
        assert_eq!(c.read_u32(i % 4, i % 3), *val);
    }
}

#[test]
fn word_read_from_given_bytes() {
    let mut buf = vec![0u8; 32];
    buf[20] = 0x12;
    buf[21] = 0x34;
    buf[22] = 0x56;
    buf[23] = 0x78;
    let c = Chunked::new(buf, 16);
    assert_eq!(c.read_u32(1, 1), 0x1234_5678);
    assert_eq!(c.read_u32(1, 0), 0);
}

#[test]
fn unwritten_memory_reads_zero() {
    let c = Chunked::new(vec![0u8; 2048], 1024);
    assert_eq!(c.read_u32(0, 0), 0);
    assert_eq!(c.read_u32(1, 255), 0);
}

#[test]
fn chunk_count_and_size() {
    let c = Chunked::new(vec![0u8; 100], 16);
    assert_eq!(c.chunk_size(), 16);
    assert_eq!(c.chunk_count(), 6);
}

#[test]
fn write_bytes_stops_at_chunk_edge() {
    let mut c = Chunked::new(vec![0u8; 48], 16);
    let data: Vec<u8> = (1..=20).collect();
    assert_eq!(c.write_bytes(1, 12, &data), 4);
    let bytes = c.into_inner();
    assert_eq!(&bytes[28..32], &[1u8, 2, 3, 4]);
    assert!(bytes[32..].iter().all(|b| *b == 0));
    assert!(bytes[..28].iter().all(|b| *b == 0));
}

#[test]
fn write_bytes_shorter_than_room() {
    let mut c = Chunked::new(vec![0u8; 48], 16);
    assert_eq!(c.write_bytes(2, 4, &[9, 8, 7]), 3);
    assert_eq!(c.read_bytes(2, 4, 3), vec![9u8, 8, 7]);
    assert_eq!(c.write_bytes(2, 4, &[]), 0);
}

#[test]
fn read_bytes_stops_at_chunk_edge() {
    let buf: Vec<u8> = (0..48).collect();
    let c = Chunked::new(buf, 16);
    assert_eq!(c.read_bytes(1, 10, 100), vec![26u8, 27, 28, 29, 30, 31]);
    assert_eq!(c.read_bytes(1, 10, 2), vec![26u8, 27]);
    assert_eq!(c.read_bytes(0, 15, 0), Vec::<u8>::new());
}

#[test]
fn read_bytes_into_fills_front_of_out() {
    let buf: Vec<u8> = (0..48).collect();
    let c = Chunked::new(buf, 16);
    let mut out = [0xffu8; 8];
    assert_eq!(c.read_bytes_into(2, 13, &mut out), 3);
    assert_eq!(out, [45u8, 46, 47, 0xff, 0xff, 0xff, 0xff, 0xff]);
    let mut small = [0u8; 2];
    assert_eq!(c.read_bytes_into(0, 4, &mut small), 2);
    assert_eq!(small, [4u8, 5]);
}
