//! What holds of the slab's operations: that a flushed value is what the
//! buffer holds, that reading again changes nothing, and that one slab sees
//! what another wrote.

use vstd::prelude::*;
use crate::error::FsError;
use crate::rope_laws::{lemma_insert_keeps, lemma_insert_then_get, lemma_write_keeps_sound};
use crate::shared_slab::SharedSlab;
use crate::rope_model::RopeState;
use crate::slab_model::SlabState;

verus! {

/// What a store reads depends on its chunks alone, not on its cursor.
pub proof fn lemma_read_by_chunks(
    a: RopeState,
    b: RopeState,
    cur: int,
    head: bool,
    remaining: nat,
)
    requires
        a.chunks == b.chunks,
        a.chunk_size == b.chunk_size,
    ensures
        a.chain_read(cur, head, remaining) == b.chain_read(cur, head, remaining),
    decreases remaining,
{
    if remaining > 0 && a.in_range(cur) && a.chunk_size > 12 {
        let n = crate::rope_model::least(remaining as int, a.room(head));
        if n != remaining {
            let next = a.word(cur, if head { 2 } else { 0 });
            lemma_read_by_chunks(a, b, next as int, false, (remaining - n) as nat);
        }
    }
}

/// Round trip. After a flush of `key` that succeeded on an attached slab
/// and wrote every chunk once, the record at `key` holds exactly the bytes
/// that the encoder made of the value, the value is still cached, and the
/// next read of `key` hands out the cached value without decoding.
pub proof fn lemma_flush_round_trip<T>(s: SlabState<T>, key: usize, bytes: Seq<u8>)
    requires
        s.wf(),
        s.rope is Some,
        s.cached(key),
        s.flushed(key, Some(bytes)).1 is Ok,
        s.rope->0.writes_apart(key as int, bytes),
    ensures
        ({
            let t = s.flushed(key, Some(bytes)).0;
            &&& t.wf()
            &&& t.rope is Some
            &&& t.rope->0.stored(key as int) == Some(bytes)
            &&& t.rope->0.version_of(key as int) == s.rope->0.version_of(key as int) + 1
            &&& t.cached(key)
            &&& t.entries[key].val == s.entries[key].val
            &&& t.entries[key].ver == t.rope->0.version_of(key as int)
            &&& forall|decoded: Option<T>| #[trigger] t.pulled(key, decoded) == (t, Ok::<(), FsError>(()))
        }),
{
    lemma_insert_keeps(s.rope->0, key as int, bytes);
    lemma_insert_then_get(s.rope->0, key as int, bytes);
}

/// Reading again. A read of `key` that succeeded leaves the slab in a
/// state in which the next read of `key` changes nothing and succeeds,
/// whatever the decoder would say; and no read changes the buffer, so the
/// version at `key` stays.
pub proof fn lemma_read_again<T>(
    s: SlabState<T>,
    key: usize,
    first: Option<T>,
    second: Option<T>,
)
    requires
        s.wf(),
        s.pulled(key, first).1 is Ok,
    ensures
        s.pulled(key, first).0.rope == s.rope,
        s.pulled(key, first).0.pulled(key, second) == (s.pulled(key, first).0, Ok::<(), FsError>(())),
{
}

/// A read never changes the buffer, whether it succeeds or not.
pub proof fn lemma_read_keeps_buffer<T>(s: SlabState<T>, key: usize, decoded: Option<T>)
    ensures
        s.pulled(key, decoded).0.rope == s.rope,
        s.pulled(key, decoded).0.next_key == s.next_key,
{
}

/// Cache coherence. Slab `a` flushes the value cached under `key`, encoded
/// as `bytes`, and the write succeeds and writes every chunk once. Slab
/// `b` is attached to the buffer as `a` left it, and what `b` has cached
/// under `key`, if anything, is no newer than what `a` overwrote. Then a
/// read of `key` by `b` decodes exactly `bytes`: it hands out what the
/// decoder makes of them, with the version that `a` wrote, and fails with
/// `InvalidData` where they do not decode.
pub proof fn lemma_cache_coherence<T>(
    a: SlabState<T>,
    b: SlabState<T>,
    key: usize,
    bytes: Seq<u8>,
    decoded: Option<T>,
)
    requires
        a.wf(),
        b.wf(),
        a.rope is Some,
        a.cached(key),
        a.flushed(key, Some(bytes)).1 is Ok,
        a.rope->0.writes_apart(key as int, bytes),
        b.rope is Some,
        b.rope->0.chunks == a.flushed(key, Some(bytes)).0.rope->0.chunks,
        b.cached(key) ==> b.entries[key].ver <= a.rope->0.version_of(key as int),
    ensures
        b.reload_bytes(key) == bytes,
        !b.fresh(key),
        match decoded {
            Some(val) => {
                &&& b.pulled(key, decoded).1 is Ok
                &&& b.pulled(key, decoded).0.entries[key].val == val
                &&& b.pulled(key, decoded).0.entries[key].ver == a.rope->0.version_of(key as int)
                    + 1
            },
            None => b.pulled(key, decoded) == (b, Err::<(), FsError>(FsError::InvalidData)),
        },
{
    lemma_flush_round_trip(a, key, bytes);
    let written = a.flushed(key, Some(bytes)).0.rope->0;
    let seen = b.rope->0;
    assert(seen.word(key as int, 1) == written.word(key as int, 1));
    lemma_read_by_chunks(written, seen, key as int, true, written.word(key as int, 1) as nat);
    assert(seen.stored(key as int) == written.stored(key as int));
    assert(seen.version_of(key as int) == written.version_of(key as int));
}

/// One slab sees what another wrote. Slab `a` holds the value `val` under
/// `key` and flushes it, and the write succeeds on a soundly linked
/// record. Slab `b` works with a codec that gives back every value it has
/// encoded, is attached to the buffer as `a` left it, and has cached under
/// `key`, if anything, nothing newer than what `a` overwrote. Then a read
/// of `key` by `b` succeeds and hands out `val`.
pub proof fn lemma_sees_what_was_written<T, E: Fn(&T) -> Option<Vec<u8>>, D: Fn(Vec<u8>) -> Option<T>>(
    a: &SharedSlab<T, E, D>,
    b: &SharedSlab<T, E, D>,
    key: usize,
    val: T,
)
    requires
        a.wf(),
        b.wf(),
        a@.rope is Some,
        a@.cached(key),
        a@.entries[key].val == val,
        a.encoding(val) is Some,
        b.decoding(a.encoding(val)->0) == Some(val),
        a@.rope->0.sound(key as int),
        a@.flushed(key, a.encoding(val)).1 is Ok,
        b@.rope is Some,
        b@.rope->0.chunks == a@.flushed(key, a.encoding(val)).0.rope->0.chunks,
        b@.cached(key) ==> b@.entries[key].ver <= a@.rope->0.version_of(key as int),
    ensures
        ({
            let (seen, outcome) = b@.pulled(key, b.decoding(b@.reload_bytes(key)));
            &&& outcome is Ok
            &&& seen.cached(key)
            &&& seen.entries[key].val == val
        }),
{
    let bytes = a.encoding(val)->0;
    lemma_write_keeps_sound(a@.rope->0, key as int, bytes);
    lemma_cache_coherence(a@, b@, key, bytes, b.decoding(bytes));
}

} // verus!
