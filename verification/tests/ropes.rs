use shared_slab::chunked::Chunked;
use shared_slab::error::FsError;
use shared_slab::ropes::Ropes;

const C: usize = 1024;

fn fresh(chunks: usize) -> Ropes {
    Ropes::new(Chunked::new(vec![0u8; chunks * C], C))
}

fn noise(len: usize, seed: u32) -> Vec<u8> {
    let mut state = seed;
    let mut out = Vec::with_capacity(len);
    for _ in 0..len {
        state = state.wrapping_mul(1_103_515_245).wrapping_add(12_345);
        out.push((state >> 16) as u8);
    }
    out
}

fn words(ropes: Ropes, chunk: usize) -> (u32, u32, u32) {
    let storage = ropes.into_storage();
    (storage.read_u32(chunk, 0), storage.read_u32(chunk, 1), storage.read_u32(chunk, 2))
}

#[test]
fn single_chunk_round_trip() {
    let mut ropes = fresh(8);
    assert_eq!(ropes.insert_at(0, b"hello"), Ok(1));
    assert_eq!(ropes.ver_peek(0), 1);
    assert!(ropes.contains_key(0));
    assert_eq!(ropes.get(0), Ok(b"hello".to_vec()));
    assert_eq!(ropes.allocate(), Ok(1));
}

#[test]
fn multi_chunk_chain() {
    let mut ropes = fresh(8);
    let data = noise(3000, 7);
    let key = ropes.allocate().unwrap();
    assert_eq!(key, 1);
    assert_eq!(ropes.insert_at(key, &data), Ok(1));
    assert_eq!(ropes.get(key), Ok(data.clone()));
    assert_eq!(ropes.alloc_peek(), Ok(4));
    let storage = ropes.into_storage();
    assert_eq!(storage.read_u32(1, 1), 3000);
    assert_eq!(storage.read_u32(1, 2), 2);
    assert_eq!(storage.read_u32(2, 0), 3);
    assert_eq!(storage.read_u32(3, 0), 1);
    assert_eq!(storage.read_u32(4, 0), 0);
    assert_eq!(storage.read_bytes(1, 12, 5000), data[..1012].to_vec());
    assert_eq!(storage.read_bytes(2, 4, 5000), data[1012..2032].to_vec());
    assert_eq!(storage.read_bytes(3, 4, 968), data[2032..].to_vec());
}

#[test]
fn overwrite_grows() {
    let mut ropes = fresh(8);
    assert_eq!(ropes.insert_at(0, &noise(10, 1)), Ok(1));
    let big = noise(2000, 2);
    assert_eq!(ropes.insert_at(0, &big), Ok(2));
    assert_eq!(ropes.get(0), Ok(big));
    assert_eq!(ropes.alloc_peek(), Ok(2));
    let storage = ropes.into_storage();
    assert_eq!(storage.read_u32(0, 0), 2);
    assert_eq!(storage.read_u32(0, 1), 2000);
    assert_eq!(storage.read_u32(0, 2), 1);
    assert_eq!(storage.read_u32(1, 0), 1);
}

#[test]
fn overwrite_shrinks() {
    let mut ropes = fresh(8);
    assert_eq!(ropes.insert_at(0, &noise(10, 1)), Ok(1));
    let big = noise(2000, 2);
    assert_eq!(ropes.insert_at(0, &big), Ok(2));
    let small = noise(5, 3);
    assert_eq!(ropes.insert_at(0, &small), Ok(3));
    assert_eq!(ropes.get(0), Ok(small));
    assert_eq!(ropes.ver_peek(0), 3);
    let storage = ropes.into_storage();
    assert_eq!(storage.read_u32(0, 1), 5);
    assert_eq!(storage.read_u32(0, 2), 1);
    assert_eq!(storage.read_u32(1, 0), 1);
    assert_eq!(storage.read_bytes(1, 4, 988), big[1012..].to_vec());
}

#[test]
fn shrunk_record_keeps_its_link_and_uses_it_again() {
    let mut ropes = fresh(8);
    assert_eq!(ropes.insert_at(1, b"other"), Ok(1));
    assert_eq!(ropes.insert_at(0, &noise(2000, 2)), Ok(1));
    assert_eq!(ropes.alloc_peek(), Ok(3));
    assert_eq!(ropes.insert_at(0, &noise(5, 3)), Ok(2));
    let again = noise(1500, 4);
    assert_eq!(ropes.insert_at(0, &again), Ok(3));
    assert_eq!(ropes.get(0), Ok(again));
    assert_eq!(ropes.alloc_peek(), Ok(3));
    assert_eq!(words(ropes, 0), (3, 1500, 2));
}

#[test]
fn shorter_chain_ends_early_and_longer_chain_takes_new_chunks() {
    let mut ropes = fresh(10);
    assert_eq!(ropes.insert_at(1, b"other"), Ok(1));
    let long = noise(3000, 5);
    assert_eq!(ropes.insert_at(0, &long), Ok(1));
    let mid = noise(1500, 6);
    assert_eq!(ropes.insert_at(0, &mid), Ok(2));
    assert_eq!(ropes.get(0), Ok(mid));
    let longer = noise(4000, 7);
    assert_eq!(ropes.insert_at(0, &longer), Ok(3));
    assert_eq!(ropes.get(0), Ok(longer));
    assert_eq!(ropes.get(1), Ok(b"other".to_vec()));
    let storage = ropes.into_storage();
    assert_eq!(storage.read_u32(0, 2), 2);
    assert_eq!(storage.read_u32(2, 0), 4);
    assert_eq!(storage.read_u32(3, 0), 1);
    assert_eq!(storage.read_u32(4, 0), 5);
    assert_eq!(storage.read_u32(5, 0), 1);
    assert_eq!(storage.read_u32(6, 0), 0);
}

#[test]
fn link_to_chunk_one_counts_as_no_link() {
    let mut ropes = fresh(8);
    assert_eq!(ropes.insert_at(0, &noise(2000, 2)), Ok(1));
    assert_eq!(ropes.alloc_peek(), Ok(2));
    let again = noise(2000, 4);
    assert_eq!(ropes.insert_at(0, &again), Ok(2));
    assert_eq!(ropes.get(0), Ok(again));
    assert_eq!(ropes.alloc_peek(), Ok(3));
    assert_eq!(words(ropes, 0), (2, 2000, 2));
}

#[test]
fn versions_go_up_by_one() {
    let mut ropes = fresh(4);
    let mut last = 0;
    for round in 0..20u32 {
        let v = ropes.insert_at(2, &noise((round * 97 % 1500) as usize, round)).unwrap();
        assert_eq!(v, last + 1);
        assert_eq!(ropes.ver_peek(2), v);
        last = v;
    }
}

#[test]
fn never_written_key_has_version_zero_and_gets_version_one() {
    let mut ropes = fresh(4);
    assert_eq!(ropes.ver_peek(3), 0);
    assert!(!ropes.contains_key(3));
    assert_eq!(ropes.insert_at(3, b"x"), Ok(1));
    assert!(ropes.contains_key(3));
}

#[test]
fn length_word_and_payload_after_insert() {
    for len in [0usize, 1, 1011, 1012, 1013, 2031, 2032, 2033, 3052, 3053, 5000] {
        let mut ropes = fresh(8);
        let data = noise(len, len as u32);
        assert_eq!(ropes.insert_at(1, &data), Ok(1));
        assert_eq!(ropes.get(1), Ok(data));
        assert_eq!(words(ropes, 1).1, len as u32);
    }
}

#[test]
fn chain_length_at_capacity_edges() {
    let mut ropes = fresh(8);
    assert_eq!(ropes.insert_at(1, b"other"), Ok(1));
    assert_eq!(ropes.insert_at(0, &noise(1012, 1)), Ok(1));
    assert_eq!(ropes.alloc_peek(), Ok(2));
    assert_eq!(ropes.insert_at(0, &noise(1013, 1)), Ok(2));
    assert_eq!(ropes.alloc_peek(), Ok(3));
    assert_eq!(ropes.insert_at(0, &noise(2032, 1)), Ok(3));
    assert_eq!(ropes.alloc_peek(), Ok(3));
    assert_eq!(ropes.insert_at(0, &noise(2033, 1)), Ok(4));
    assert_eq!(ropes.alloc_peek(), Ok(4));
}

#[test]
fn empty_payload() {
    let mut ropes = fresh(2);
    assert_eq!(ropes.insert_at(0, &[]), Ok(1));
    assert_eq!(ropes.get(0), Ok(Vec::new()));
    assert_eq!(words(ropes, 0), (1, 0, 0));
}

#[test]
fn reading_twice_gives_the_same_and_changes_nothing() {
    let mut ropes = fresh(8);
    let data = noise(2500, 9);
    ropes.insert_at(1, &data).unwrap();
    let first = ropes.get(1);
    let version = ropes.ver_peek(1);
    let second = ropes.get(1);
    assert_eq!(first, second);
    assert_eq!(first, Ok(data));
    assert_eq!(ropes.ver_peek(1), version);
    let before = ropes.alloc_peek();
    assert_eq!(before, ropes.alloc_peek());
}

#[test]
fn allocator_skips_inserted_keys() {
    let mut ropes = fresh(16);
    let keys = [1usize, 2, 5, 6, 9];
    for (i, key) in keys.iter().enumerate() {
        assert_eq!(ropes.insert_at(*key, &noise(10 + i, i as u32)), Ok(1));
    }
    let mut got = Vec::new();
    while let Ok(k) = ropes.allocate() {
        assert!(!keys.contains(&k));
        got.push(k);
    }
    assert_eq!(got, vec![3usize, 4, 7, 8, 10, 11, 12, 13, 14, 15]);
}

#[test]
fn allocator_skips_continuation_chunks() {
    let mut ropes = fresh(8);
    ropes.insert_at(4, &noise(3000, 1)).unwrap();
    assert_eq!(ropes.allocate(), Ok(3));
    assert_eq!(ropes.allocate(), Ok(5));
    assert_eq!(words(ropes, 4).2, 1);
}

#[test]
fn record_at_a_key_past_the_cursor_does_not_chain_into_itself() {
    let mut ropes = fresh(8);
    let data = noise(3000, 11);
    assert_eq!(ropes.insert_at(1, &data), Ok(1));
    assert_eq!(ropes.get(1), Ok(data));
    let storage = ropes.into_storage();
    assert_eq!(storage.read_u32(1, 2), 2);
    assert_eq!(storage.read_u32(2, 0), 3);
    assert_eq!(storage.read_u32(3, 0), 1);
}

#[test]
fn final_chunk_holds_end_mark() {
    for len in [1013usize, 2032, 2033, 4000] {
        let mut ropes = fresh(8);
        ropes.insert_at(0, &noise(len, 3)).unwrap();
        let links = 1 + (len - 1013) / 1020;
        let storage = ropes.into_storage();
        let mut cur = storage.read_u32(0, 2) as usize;
        for _ in 1..links {
            cur = storage.read_u32(cur, 0) as usize;
            assert!(cur > 1);
        }
        assert_eq!(storage.read_u32(cur, 0), 1);
    }
}

#[test]
fn alloc_peek_leaves_cursor() {
    let mut ropes = fresh(4);
    assert_eq!(ropes.alloc_peek(), Ok(1));
    assert_eq!(ropes.alloc_peek(), Ok(1));
    assert_eq!(ropes.allocate(), Ok(1));
    assert_eq!(ropes.alloc_peek(), Ok(2));
    assert_eq!(ropes.allocate(), Ok(2));
    assert_eq!(ropes.allocate(), Ok(3));
    assert_eq!(ropes.allocate(), Err(FsError::OutOfBuffer));
    assert_eq!(ropes.alloc_peek(), Err(FsError::OutOfBuffer));
}

#[test]
fn insert_takes_the_allocated_key() {
    let mut ropes = fresh(4);
    assert_eq!(ropes.insert(b"a"), Ok((1, 1)));
    assert_eq!(ropes.insert(b"b"), Ok((2, 1)));
    assert_eq!(ropes.get(1), Ok(b"a".to_vec()));
    assert_eq!(ropes.get(2), Ok(b"b".to_vec()));
    assert_eq!(ropes.insert(b"c"), Ok((3, 1)));
    assert_eq!(ropes.insert(b"d"), Err(FsError::OutOfBuffer));
}

#[test]
fn remove_zeroes_version_only() {
    let mut ropes = fresh(8);
    let data = noise(2000, 1);
    ropes.insert_at(2, &data).unwrap();
    ropes.remove(2);
    assert_eq!(ropes.ver_peek(2), 0);
    assert!(!ropes.contains_key(2));
    assert_eq!(ropes.get(2), Ok(data));
    ropes.remove(100);
    assert_eq!(words(ropes, 2), (0, 2000, 1));
}

#[test]
fn removed_key_starts_again_at_version_one() {
    let mut ropes = fresh(4);
    ropes.insert_at(1, b"a").unwrap();
    ropes.insert_at(1, b"b").unwrap();
    ropes.remove(1);
    assert_eq!(ropes.insert_at(1, b"c"), Ok(1));
}

#[test]
fn key_past_buffer() {
    let mut ropes = fresh(2);
    assert_eq!(ropes.chunk_count(), 2);
    assert_eq!(ropes.ver_peek(2), 0);
    assert!(!ropes.contains_key(7));
    assert_eq!(ropes.insert_at(2, b"x"), Err(FsError::OutOfBuffer));
    assert_eq!(ropes.get(2), Err(FsError::InvalidData));
}

#[test]
fn chain_runs_out_of_buffer() {
    let mut ropes = fresh(2);
    assert_eq!(ropes.insert_at(0, &noise(3000, 1)), Err(FsError::OutOfBuffer));
    assert_eq!(ropes.ver_peek(0), 0);
    assert_eq!(ropes.alloc_peek(), Err(FsError::OutOfBuffer));
    assert_eq!(ropes.insert_at(0, &noise(1012, 2)), Ok(1));
    assert_eq!(ropes.get(0), Ok(noise(1012, 2)));
    let mut again = Ropes::new(ropes.into_storage());
    assert_eq!(again.insert_at(0, &noise(2032, 3)), Ok(2));
    assert_eq!(again.get(0), Ok(noise(2032, 3)));
}

#[test]
fn version_counter_used_up() {
    let mut storage = Chunked::new(vec![0u8; 4 * C], C);
    storage.write_u32(1, 0, u32::MAX);
    let mut ropes = Ropes::new(storage);
    assert_eq!(ropes.insert_at(1, b"x"), Err(FsError::IOError));
    assert_eq!(ropes.ver_peek(1), u32::MAX);
    assert_eq!(words(ropes, 1), (u32::MAX, 0, 0));
}

#[test]
fn broken_chain_is_invalid_data() {
    let mut storage = Chunked::new(vec![0u8; 4 * C], C);
    storage.write_u32(0, 0, 1);
    storage.write_u32(0, 1, 2000);
    storage.write_u32(0, 2, 9);
    let ropes = Ropes::new(storage);
    assert_eq!(ropes.get(0), Err(FsError::InvalidData));
}

#[test]
fn length_word_bounds_what_is_read() {
    let mut storage = Chunked::new(vec![0u8; 4 * C], C);
    storage.write_u32(0, 1, 3);
    storage.write_bytes(0, 12, b"abcdef");
    let ropes = Ropes::new(storage);
    assert_eq!(ropes.get(0), Ok(b"abc".to_vec()));
}

#[test]
fn other_records_stay() {
    let mut ropes = fresh(12);
    let a = noise(2500, 1);
    let b = noise(1800, 2);
    ropes.insert_at(1, &a).unwrap();
    ropes.insert_at(4, &b).unwrap();
    ropes.insert_at(1, &noise(3500, 3)).unwrap();
    assert_eq!(ropes.get(4), Ok(b));
    assert_eq!(ropes.ver_peek(4), 1);
}
