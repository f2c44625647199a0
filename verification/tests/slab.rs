use shared_slab::chunked::Chunked;
use shared_slab::error::FsError;
use shared_slab::ropes::Ropes;
use shared_slab::shared_slab::SharedSlab;
use shared_slab::slab_adapter::SlabAdapter;

fn enc(v: &String) -> Option<Vec<u8>> {
    serde_cbor::to_vec(v).ok()
}

fn dec(b: Vec<u8>) -> Option<String> {
    serde_cbor::from_slice(&b).ok()
}

fn enc_list(v: &Vec<u32>) -> Option<Vec<u8>> {
    serde_cbor::to_vec(v).ok()
}

fn dec_list(b: Vec<u8>) -> Option<Vec<u32>> {
    serde_cbor::from_slice(&b).ok()
}

fn picky(v: &String) -> Option<Vec<u8>> {
    if v.starts_with('!') {
        None
    } else {
        serde_cbor::to_vec(v).ok()
    }
}

fn buffer(chunks: usize) -> Vec<u8> {
    vec![0u8; chunks * 1024]
}

fn text(s: &str) -> String {
    s.to_string()
}

#[test]
fn detached_slab() {
    let mut slab = SharedSlab::new(enc, dec);
    assert_eq!(slab.vacant_entry_key(), Ok(0));
    assert_eq!(slab.insert(text("x")), Ok(0));
    assert_eq!(slab.get(0), Ok(Some(&text("x"))));
    assert_eq!(slab.insert(text("y")), Ok(1));
    assert_eq!(slab.get(1), Ok(Some(&text("y"))));
    assert_eq!(slab.get(2), Ok(None));
    assert_eq!(slab.flush_mut(0), Ok(()));
    assert_eq!(slab.detach(), None);
}

#[test]
fn detached_slab_never_calls_decoder() {
    let mut slab = SharedSlab::new(enc, |_b: Vec<u8>| -> Option<String> { panic!("decoded") });
    assert_eq!(slab.insert(text("x")), Ok(0));
    assert_eq!(slab.get(0), Ok(Some(&text("x"))));
    assert_eq!(slab.get(9), Ok(None));
}

#[test]
fn cross_context_visibility() {
    let mut a = SharedSlab::new(enc, dec);
    let mut b = SharedSlab::new(enc, dec);
    assert_eq!(a.attach(buffer(16)), Ok(()));
    for i in 1..7 {
        assert_eq!(a.insert(format!("filler {}", i)), Ok(i));
    }
    assert_eq!(a.insert(text("X")), Ok(7));
    let buf = a.detach().unwrap();

    assert_eq!(b.attach(buf), Ok(()));
    assert!(!b.contains(7));
    assert_eq!(b.get(7), Ok(Some(&text("X"))));
    assert!(b.contains(7));
    let buf = b.detach().unwrap();

    assert_eq!(a.attach(buf), Ok(()));
    match a.get_mut(7) {
        Ok(Some(val)) => *val = text("Y"),
        other => panic!("{:?}", other),
    }
    assert_eq!(a.flush_mut(7), Ok(()));
    let buf = a.detach().unwrap();

    assert_eq!(b.attach(buf), Ok(()));
    assert_eq!(b.get(7), Ok(Some(&text("Y"))));
    let ropes = Ropes::new(Chunked::new(b.detach().unwrap(), 1024));
    assert_eq!(ropes.ver_peek(7), 2);
    assert_eq!(ropes.get(7), Ok(serde_cbor::to_vec(&text("Y")).unwrap()));
}

#[test]
fn flushed_record_is_the_encoding() {
    let mut slab = SharedSlab::new(enc_list, dec_list);
    assert_eq!(slab.attach(buffer(16)), Ok(()));
    let small: Vec<u32> = vec![1, 2, 3];
    let large: Vec<u32> = (0..2000).map(|i| i * 7919).collect();
    let k1 = slab.insert(small.clone()).unwrap();
    let k2 = slab.insert(large.clone()).unwrap();
    assert_eq!((k1, k2), (1, 2));
    assert_eq!(slab.get(k2), Ok(Some(&large)));
    let ropes = Ropes::new(Chunked::new(slab.detach().unwrap(), 1024));
    assert_eq!(ropes.get(k1), Ok(serde_cbor::to_vec(&small).unwrap()));
    assert_eq!(ropes.get(k2), Ok(serde_cbor::to_vec(&large).unwrap()));
    assert!(serde_cbor::to_vec(&large).unwrap().len() > 3052);
    assert_eq!(ropes.ver_peek(k1), 1);
}

#[test]
fn large_value_is_seen_by_another_slab() {
    let mut a = SharedSlab::new(enc_list, dec_list);
    let mut b = SharedSlab::new(enc_list, dec_list);
    a.attach(buffer(32)).unwrap();
    let large: Vec<u32> = (0..3000).map(|i| i * 31).collect();
    let key = a.insert(large.clone()).unwrap();
    b.attach(a.detach().unwrap()).unwrap();
    assert_eq!(b.get(key), Ok(Some(&large)));
}

#[test]
fn attach_flushes_cached_root() {
    let mut slab = SharedSlab::new(enc, dec);
    assert_eq!(slab.insert(text("root")), Ok(0));
    assert_eq!(slab.attach(buffer(4)), Ok(()));
    let mut other = SharedSlab::new(enc, dec);
    other.attach(slab.detach().unwrap()).unwrap();
    assert_eq!(other.get(0), Ok(Some(&text("root"))));
    let ropes = Ropes::new(Chunked::new(other.detach().unwrap(), 1024));
    assert_eq!(ropes.ver_peek(0), 1);
}

#[test]
fn attach_keeps_root_that_is_there() {
    let mut first = SharedSlab::new(enc, dec);
    first.insert(text("first root")).unwrap();
    first.attach(buffer(4)).unwrap();
    let mut second = SharedSlab::new(enc, dec);
    second.insert(text("second root")).unwrap();
    assert_eq!(second.attach(first.detach().unwrap()), Ok(()));
    assert_eq!(second.get(0), Ok(Some(&text("first root"))));
    let ropes = Ropes::new(Chunked::new(second.detach().unwrap(), 1024));
    assert_eq!(ropes.ver_peek(0), 1);
}

#[test]
fn attach_without_root_writes_nothing() {
    let mut slab = SharedSlab::new(enc, dec);
    assert_eq!(slab.attach(buffer(2)), Ok(()));
    assert_eq!(slab.detach(), Some(buffer(2)));
}

#[test]
fn attached_slab_allocates_behind_root() {
    let mut slab = SharedSlab::new(enc, dec);
    slab.attach(buffer(4)).unwrap();
    assert_eq!(slab.vacant_entry_key(), Ok(1));
    assert_eq!(slab.insert(text("a")), Ok(1));
    assert_eq!(slab.vacant_entry_key(), Ok(2));
}

#[test]
fn reading_twice_gives_the_same_and_leaves_the_version() {
    let mut a = SharedSlab::new(enc, dec);
    a.attach(buffer(8)).unwrap();
    let key = a.insert(text("once")).unwrap();
    let mut b = SharedSlab::new(enc, dec);
    b.attach(a.detach().unwrap()).unwrap();
    let first = b.get(key).map(|v| v.cloned());
    let second = b.get(key).map(|v| v.cloned());
    assert_eq!(first, second);
    assert_eq!(first, Ok(Some(text("once"))));
    let ropes = Ropes::new(Chunked::new(b.detach().unwrap(), 1024));
    assert_eq!(ropes.ver_peek(key), 1);
}

#[test]
fn change_in_cache_reaches_buffer_only_on_flush() {
    let mut a = SharedSlab::new(enc, dec);
    a.attach(buffer(8)).unwrap();
    let key = a.insert(text("old")).unwrap();
    match a.get_mut(key) {
        Ok(Some(val)) => val.push_str(" and new"),
        other => panic!("{:?}", other),
    }
    assert_eq!(a.get(key), Ok(Some(&text("old and new"))));
    let ropes = Ropes::new(Chunked::new(a.detach().unwrap(), 1024));
    assert_eq!(ropes.get(key), Ok(serde_cbor::to_vec(&text("old")).unwrap()));
    a.attach(ropes.into_storage().into_inner()).unwrap();
    assert_eq!(a.flush_mut(key), Ok(()));
    let ropes = Ropes::new(Chunked::new(a.detach().unwrap(), 1024));
    assert_eq!(ropes.get(key), Ok(serde_cbor::to_vec(&text("old and new")).unwrap()));
    assert_eq!(ropes.ver_peek(key), 2);
}

#[test]
fn record_that_does_not_decode_is_invalid_data() {
    let mut slab = SharedSlab::new(enc, dec);
    slab.attach(buffer(4)).unwrap();
    assert_eq!(slab.get(2), Err(FsError::InvalidData));
    assert!(!slab.contains(2));
    assert!(matches!(slab.get_mut(2), Err(FsError::InvalidData)));
    assert_eq!(slab.get(100), Err(FsError::InvalidData));
}

#[test]
fn stale_entry_is_not_handed_out_when_reload_fails() {
    let mut ropes = Ropes::new(Chunked::new(buffer(4), 1024));
    let mut slab = SharedSlab::new(enc, dec);
    slab.attach(ropes.into_storage().into_inner()).unwrap();
    let key = slab.insert(text("good")).unwrap();
    ropes = Ropes::new(Chunked::new(slab.detach().unwrap(), 1024));
    assert_eq!(ropes.insert_at(key, &[0xff, 0xff, 0xff]), Ok(2));
    slab.attach(ropes.into_storage().into_inner()).unwrap();
    assert_eq!(slab.get(key), Err(FsError::InvalidData));
    assert!(slab.contains(key));
}

#[test]
fn value_that_does_not_encode_is_io_error() {
    let mut slab = SharedSlab::new(picky, dec);
    slab.attach(buffer(4)).unwrap();
    assert_eq!(slab.insert(text("!bad")), Err(FsError::IOError));
    assert!(slab.contains(1));
    assert_eq!(slab.vacant_entry_key(), Ok(2));
    assert_eq!(slab.flush_mut(1), Err(FsError::IOError));
    assert_eq!(slab.insert(text("good")), Ok(2));
    let ropes = Ropes::new(Chunked::new(slab.detach().unwrap(), 1024));
    assert_eq!(ropes.ver_peek(1), 0);
    assert_eq!(ropes.ver_peek(2), 1);
}

#[test]
fn full_buffer_is_out_of_buffer() {
    let mut slab = SharedSlab::new(enc, dec);
    slab.attach(buffer(3)).unwrap();
    assert_eq!(slab.insert(text("a")), Ok(1));
    assert_eq!(slab.insert(text("b")), Ok(2));
    assert_eq!(slab.vacant_entry_key(), Err(FsError::OutOfBuffer));
    assert_eq!(slab.insert(text("c")), Err(FsError::OutOfBuffer));
    assert_eq!(slab.get(1), Ok(Some(&text("a"))));
}

#[test]
fn value_too_long_for_what_is_left() {
    let mut slab = SharedSlab::new(enc_list, dec_list);
    slab.attach(buffer(3)).unwrap();
    let large: Vec<u32> = (0..3000).map(|i| i + 70000).collect();
    assert_eq!(slab.insert(large), Err(FsError::OutOfBuffer));
    assert!(slab.contains(1));
}

#[test]
fn remove_returns_value_and_frees_key_in_buffer() {
    let mut slab = SharedSlab::new(enc, dec);
    slab.attach(buffer(4)).unwrap();
    let key = slab.insert(text("gone")).unwrap();
    assert_eq!(slab.remove(key), text("gone"));
    assert!(!slab.contains(key));
    let ropes = Ropes::new(Chunked::new(slab.detach().unwrap(), 1024));
    assert_eq!(ropes.ver_peek(key), 0);
    assert!(!ropes.contains_key(key));
}

#[test]
fn remove_while_detached() {
    let mut slab = SharedSlab::new(enc, dec);
    let key = slab.insert(text("gone")).unwrap();
    assert_eq!(slab.remove(key), text("gone"));
    assert_eq!(slab.get(key), Ok(None));
    assert_eq!(slab.insert(text("next")), Ok(1));
}

#[test]
fn iter_yields_cached_entries_only() {
    let mut a = SharedSlab::new(enc, dec);
    a.attach(buffer(8)).unwrap();
    for name in ["one", "two", "three"] {
        a.insert(text(name)).unwrap();
    }
    let mut b = SharedSlab::new(enc, dec);
    b.attach(a.detach().unwrap()).unwrap();
    assert!(b.iter().next().is_none());
    b.get(2).unwrap();
    let mut seen = Vec::new();
    let mut walk = b.iter();
    while let Some((key, val)) = walk.next() {
        seen.push((key, val.clone()));
    }
    assert_eq!(seen, vec![(2usize, text("two"))]);
    b.get(1).unwrap();
    b.get(3).unwrap();
    let mut walk = b.iter();
    let mut all = Vec::new();
    while let Some((key, val)) = walk.next() {
        all.push((key, val.clone()));
    }
    all.sort();
    assert_eq!(all, vec![(1usize, text("one")), (2, text("two")), (3, text("three"))]);
}

#[test]
fn push_takes_the_encoding() {
    let mut slab = SharedSlab::new(enc, dec);
    assert_eq!(slab.push(3, Some(vec![1, 2, 3])), Ok(0));
    assert_eq!(slab.push(3, None), Err(FsError::IOError));
    slab.attach(buffer(8)).unwrap();
    assert_eq!(slab.push(3, Some(vec![1, 2, 3])), Ok(1));
    assert_eq!(slab.push(3, Some(vec![4])), Ok(2));
    assert_eq!(slab.push(3, None), Err(FsError::IOError));
    assert_eq!(slab.push(8, Some(vec![4])), Err(FsError::OutOfBuffer));
    let ropes = Ropes::new(Chunked::new(slab.detach().unwrap(), 1024));
    assert_eq!(ropes.get(3), Ok(vec![4u8]));
}

fn fill<S: SlabAdapter<String>>(slab: &mut S) -> Vec<usize> {
    let mut keys = Vec::new();
    for name in ["a", "b", "c"] {
        let expected = slab.vacant_entry_key().unwrap();
        let key = slab.insert(text(name)).unwrap();
        assert_eq!(key, expected);
        keys.push(key);
    }
    keys
}

#[test]
fn slab_through_its_adapter() {
    let mut slab = SharedSlab::new(enc, dec);
    slab.attach(buffer(8)).unwrap();
    let keys = fill(&mut slab);
    assert_eq!(keys, vec![1usize, 2, 3]);
    assert_eq!(SlabAdapter::get(&mut slab, 2), Ok(Some(&text("b"))));
    match SlabAdapter::get_mut(&mut slab, 2) {
        Ok(Some(val)) => val.push('!'),
        other => panic!("{:?}", other),
    }
    assert_eq!(SlabAdapter::flush_mut(&mut slab, 2), Ok(()));
    assert_eq!(SlabAdapter::remove(&mut slab, 1), text("a"));
    let ropes = Ropes::new(Chunked::new(slab.detach().unwrap(), 1024));
    assert_eq!(ropes.get(2), Ok(serde_cbor::to_vec(&text("b!")).unwrap()));
    assert_eq!(ropes.ver_peek(1), 0);
}
