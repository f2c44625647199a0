//! What holds of the rope store's operations, whatever the buffer held
//! before: versions go up, what was written is read back, the allocator
//! passes over what is stored, chains end in the end mark, and records
//! that share no chunk leave each other alone.

use vstd::prelude::*;
use crate::chain_laws::{
    chain_whole,
    lemma_chain_ends_marked,
    lemma_chain_links,
    lemma_chain_reads_back,
    lemma_chain_slack,
    lemma_chain_write_keeps,
    lemma_links_in,
    lemma_new_chain_rises,
    lemma_old_chain_apart,
    links_in,
};
use crate::error::FsError;
use crate::rope_model::{least, RopeState, END_OF_CHAIN, HEAD_PAYLOAD};
use crate::rope_steps::{
    lemma_first_free,
    lemma_first_free_except,
    lemma_head_filled,
    lemma_long_insert,
    lemma_long_insert_state,
    lemma_sealed,
    tail_start,
};

verus! {

/// Every write keeps the store well formed and of the same shape, never
/// moves the cursor back, and never empties a chunk: where something was
/// stored, something still is. A write that succeeds returns the old
/// version plus one, and leaves that version and the payload's length in
/// the head. A write that is refused for its key, its length or its
/// version changes nothing.
pub proof fn lemma_insert_keeps(s: RopeState, key: int, data: Seq<u8>)
    requires
        s.wf(),
    ensures
        ({
            let (t, r) = s.after_insert(key, data);
            &&& t.wf()
            &&& t.chunks.len() == s.chunks.len()
            &&& t.chunk_size == s.chunk_size
            &&& t.next_free >= s.next_free
            &&& forall|j: int| s.contains(j) ==> #[trigger] t.contains(j)
            &&& match r {
                Ok(version) => {
                    &&& s.in_range(key)
                    &&& version == s.version_of(key) + 1
                    &&& t.version_of(key) == version
                    &&& t.word(key, 1) == data.len()
                    &&& t.contains(key)
                },
                Err(e) => {
                    &&& e == FsError::OutOfBuffer || e == FsError::IOError
                    &&& e == FsError::IOError <==> s.in_range(key) && (s.version_of(key)
                        == u32::MAX || data.len() > u32::MAX)
                    &&& !s.in_range(key) || e == FsError::IOError ==> t == s
                },
            }
        }),
{
    let (t, r) = s.after_insert(key, data);
    if s.in_range(key) && s.word(key, 0) != u32::MAX && data.len() <= u32::MAX {
        let version = (s.word(key, 0) + 1) as u32;
        let before = s.word(key, 2);
        let n = least(data.len() as int, s.room(true));
        let piece = data.subrange(0, n);
        let rest = data.subrange(n, data.len() as int);
        let filled = s.with_bytes(key, HEAD_PAYLOAD as int, piece);
        lemma_head_filled(s, key, piece);
        assert forall|j: int| s.in_range(j) implies #[trigger] filled.word(j, 0) == s.word(
            j,
            0,
        ) by {
            if j != key {
                assert(filled.chunks[j] == s.chunks[j]);
            }
        }
        if n == data.len() {
            lemma_sealed(filled, key, before, before, data.len() as u32, version);
            assert forall|j: int| s.contains(j) implies #[trigger] t.contains(j) by {
                if j != key {
                    assert(t.chunks[j] == filled.chunks[j]);
                }
            }
        } else {
            let (chained, first) = filled.cont_write(key, before, rest);
            let start = if before > 1 {
                filled
            } else {
                match filled.first_free_except(filled.next_free as int, key) {
                    Some(k) => filled.with_cursor(k + 1),
                    None => filled,
                }
            };
            lemma_first_free_except(filled, filled.next_free as int, key);
            assert(start.wf());
            match first {
                Some(k) => {
                    lemma_chain_write_keeps(start, key, k, rest);
                    assert(chained == start.chain_write(key, k, rest).0);
                    lemma_sealed(chained, key, before, k as u32, data.len() as u32, version);
                    assert forall|j: int| s.contains(j) implies #[trigger] t.contains(j) by {
                        assert(start.word(j, 0) == s.word(j, 0));
                        assert(chained.word(j, 0) != 0);
                        if j != key {
                            assert(t.chunks[j] == chained.chunks[j]);
                        }
                    }
                },
                None => {
                    if before > 1 {
                        lemma_chain_write_keeps(start, key, before as int, rest);
                    } else {
                        match filled.first_free_except(filled.next_free as int, key) {
                            Some(k) => {
                                lemma_chain_write_keeps(start, key, k, rest);
                            },
                            None => {},
                        }
                    }
                    assert forall|j: int| s.contains(j) implies #[trigger] t.contains(j) by {
                        assert(start.word(j, 0) == s.word(j, 0));
                    }
                },
            }
        }
    }
}

/// Each write that succeeds moves the version at its key up by one, so the
/// versions that successive writes to a key leave there go strictly up as
/// long as nothing else writes to that chunk in between.
pub proof fn lemma_version_goes_up(s: RopeState, key: int, data: Seq<u8>)
    requires
        s.wf(),
        s.after_insert(key, data).1 is Ok,
    ensures
        s.after_insert(key, data).0.version_of(key) == s.version_of(key) + 1,
        s.after_insert(key, data).0.version_of(key) > s.version_of(key),
        s.after_insert(key, data).1 == Ok::<u32, FsError>(
            s.after_insert(key, data).0.version_of(key),
        ),
{
    lemma_insert_keeps(s, key, data);
}

/// The store after one write for each of `keys`, in order.
pub open spec fn after_inserts(s: RopeState, keys: Seq<int>, payloads: Seq<Seq<u8>>) -> RopeState
    decreases keys.len(),
{
    if keys.len() == 0 {
        s
    } else {
        after_inserts(
            s.after_insert(keys[0], payloads[0]).0,
            keys.drop_first(),
            payloads.drop_first(),
        )
    }
}

/// Whether each of the writes for `keys`, in order, succeeds.
pub open spec fn inserts_succeed(s: RopeState, keys: Seq<int>, payloads: Seq<Seq<u8>>) -> bool
    decreases keys.len(),
{
    if keys.len() == 0 {
        true
    } else {
        &&& s.after_insert(keys[0], payloads[0]).1 is Ok
        &&& inserts_succeed(
            s.after_insert(keys[0], payloads[0]).0,
            keys.drop_first(),
            payloads.drop_first(),
        )
    }
}

/// How many of `keys` are `key`.
pub open spec fn writes_to(keys: Seq<int>, key: int) -> nat
    decreases keys.len(),
{
    if keys.len() == 0 {
        0
    } else {
        (if keys[0] == key {
            1nat
        } else {
            0nat
        }) + writes_to(keys.drop_first(), key)
    }
}

/// Whether none of the writes for `keys`, in order, that goes to another
/// key comes to the chunk `key` as a continuation chunk.
pub open spec fn leave_alone(s: RopeState, keys: Seq<int>, payloads: Seq<Seq<u8>>, key: int) -> bool
    decreases keys.len(),
{
    if keys.len() == 0 {
        true
    } else {
        &&& keys[0] != key ==> !s.insert_path(keys[0], payloads[0]).contains(key)
        &&& leave_alone(
            s.after_insert(keys[0], payloads[0]).0,
            keys.drop_first(),
            payloads.drop_first(),
            key,
        )
    }
}

/// Version monotonicity. Over a run of writes that all succeed, the
/// version at `key` goes up by exactly one with each write to `key` and
/// stays with every other write, as long as no other write takes the
/// chunk `key` for a continuation chunk. So the versions that the writes
/// to `key` leave there, one after the other, rise strictly.
pub proof fn lemma_versions_rise(
    s: RopeState,
    keys: Seq<int>,
    payloads: Seq<Seq<u8>>,
    key: int,
)
    requires
        s.wf(),
        s.in_range(key),
        keys.len() == payloads.len(),
        inserts_succeed(s, keys, payloads),
        leave_alone(s, keys, payloads, key),
    ensures
        after_inserts(s, keys, payloads).version_of(key) == s.version_of(key) + writes_to(
            keys,
            key,
        ),
    decreases keys.len(),
{
    if keys.len() > 0 {
        let t = s.after_insert(keys[0], payloads[0]).0;
        lemma_insert_keeps(s, keys[0], payloads[0]);
        lemma_insert_touches(s, keys[0], payloads[0]);
        if keys[0] != key {
            assert(t.chunks[key] == s.chunks[key]);
        }
        lemma_versions_rise(t, keys.drop_first(), payloads.drop_first(), key);
    }
}

/// After a write that succeeded and wrote every chunk once, the record
/// reads back as exactly the bytes that were written.
pub proof fn lemma_insert_then_get(s: RopeState, key: int, data: Seq<u8>)
    requires
        s.wf(),
        s.after_insert(key, data).1 is Ok,
        s.writes_apart(key, data),
    ensures
        s.after_insert(key, data).0.word(key, 1) == data.len(),
        s.after_insert(key, data).0.stored(key) == Some(data),
{
    lemma_insert_keeps(s, key, data);
    lemma_insert_read_later(s, key, data, s.after_insert(key, data).0);
}

/// A record reads back as it was written in every later store that holds
/// the record's head and continuation chunks as the write left them,
/// whatever has become of the other chunks; its version is there too.
pub proof fn lemma_insert_read_later(s: RopeState, key: int, data: Seq<u8>, seen: RopeState)
    requires
        s.wf(),
        s.after_insert(key, data).1 is Ok,
        s.writes_apart(key, data),
        seen.chunks.len() == s.chunks.len(),
        seen.chunk_size == s.chunk_size,
        seen.chunks[key] == s.after_insert(key, data).0.chunks[key],
        forall|j: int|
            s.insert_path(key, data).contains(j) ==> #[trigger] seen.chunks[j]
                == s.after_insert(key, data).0.chunks[j],
    ensures
        seen.stored(key) == Some(data),
        seen.version_of(key) == s.version_of(key) + 1,
{
    let (t, r) = s.after_insert(key, data);
    let version = (s.word(key, 0) + 1) as u32;
    let before = s.word(key, 2);
    let n = least(data.len() as int, s.room(true));
    let piece = data.subrange(0, n);
    let rest = data.subrange(n, data.len() as int);
    let filled = s.with_bytes(key, HEAD_PAYLOAD as int, piece);
    lemma_insert_keeps(s, key, data);
    lemma_head_filled(s, key, piece);
    assert(seen.word(key, 0) == t.word(key, 0));
    assert(seen.word(key, 1) == t.word(key, 1));
    if n == data.len() {
        lemma_sealed(filled, key, before, before, data.len() as u32, version);
        assert(piece =~= data);
        assert(t.chunks[key].subrange(HEAD_PAYLOAD as int, HEAD_PAYLOAD + n)
            =~= filled.chunks[key].subrange(HEAD_PAYLOAD as int, s.chunk_size as int).subrange(
            0,
            n,
        ));
        assert(filled.chunks[key].subrange(HEAD_PAYLOAD as int, s.chunk_size as int).subrange(0, n)
            =~= filled.chunks[key].subrange(HEAD_PAYLOAD as int, HEAD_PAYLOAD + n));
        if data.len() == 0 {
            assert(data =~= Seq::<u8>::empty());
        }
    } else {
        let (chained, first) = filled.cont_write(key, before, rest);
        let start = if before > 1 {
            filled
        } else {
            match filled.first_free_except(filled.next_free as int, key) {
                Some(k) => filled.with_cursor(k + 1),
                None => filled,
            }
        };
        lemma_first_free_except(filled, filled.next_free as int, key);
        let k = first->0;
        let path = start.chain_path(key, k, rest);
        assert(path == s.insert_path(key, data));
        assert(chained == start.chain_write(key, k, rest).0);
        lemma_chain_write_keeps(start, key, k, rest);
        lemma_sealed(chained, key, before, k as u32, data.len() as u32, version);
        assert(chained.chunks[key] == start.chunks[key]);
        assert(seen.word(key, 2) == t.word(key, 2));
        assert(t.chunks[key].subrange(HEAD_PAYLOAD as int, HEAD_PAYLOAD + n)
            =~= chained.chunks[key].subrange(HEAD_PAYLOAD as int, s.chunk_size as int).subrange(
            0,
            n,
        ));
        assert(filled.chunks[key].subrange(HEAD_PAYLOAD as int, s.chunk_size as int).subrange(0, n)
            =~= filled.chunks[key].subrange(HEAD_PAYLOAD as int, HEAD_PAYLOAD + n));
        assert forall|j: int| path.contains(j) implies #[trigger] seen.chunks[j]
            == chained.chunks[j] by {
            assert(j != key);
            assert(t.chunks[j] == chained.chunks[j]);
        }
        lemma_chain_reads_back(start, key, k, rest, seen);
        assert(piece + rest =~= data);
    }
}

/// A write changes no chunk but the head and the continuation chunks it
/// comes to, and leaves the slack alone.
pub proof fn lemma_insert_touches(s: RopeState, key: int, data: Seq<u8>)
    requires
        s.wf(),
    ensures
        s.after_insert(key, data).0.slack == s.slack,
        forall|j: int|
            s.in_range(j) && j != key && !s.insert_path(key, data).contains(j)
                ==> #[trigger] s.after_insert(key, data).0.chunks[j] == s.chunks[j],
{
    let (t, r) = s.after_insert(key, data);
    if s.in_range(key) && s.word(key, 0) != u32::MAX && data.len() <= u32::MAX {
        let version = (s.word(key, 0) + 1) as u32;
        let before = s.word(key, 2);
        let n = least(data.len() as int, s.room(true));
        let piece = data.subrange(0, n);
        let rest = data.subrange(n, data.len() as int);
        let filled = s.with_bytes(key, HEAD_PAYLOAD as int, piece);
        lemma_head_filled(s, key, piece);
        if n == data.len() {
            lemma_sealed(filled, key, before, before, data.len() as u32, version);
            assert forall|j: int| s.in_range(j) && j != key implies #[trigger] t.chunks[j]
                == s.chunks[j] by {
                assert(filled.chunks[j] == s.chunks[j]);
            }
        } else {
            let (chained, first) = filled.cont_write(key, before, rest);
            lemma_first_free_except(filled, filled.next_free as int, key);
            let start = if before > 1 {
                filled
            } else {
                match filled.first_free_except(filled.next_free as int, key) {
                    Some(k) => filled.with_cursor(k + 1),
                    None => filled,
                }
            };
            let k = if before > 1 {
                before as int
            } else {
                match filled.first_free_except(filled.next_free as int, key) {
                    Some(k) => k,
                    None => -1,
                }
            };
            if k >= 0 {
                assert(start.wf());
                let path = start.chain_path(key, k, rest);
                assert(path == s.insert_path(key, data));
                assert(chained == start.chain_write(key, k, rest).0);
                lemma_chain_write_keeps(start, key, k, rest);
                lemma_chain_slack(start, key, k, rest);
                if first is Some {
                    lemma_sealed(chained, key, before, k as u32, data.len() as u32, version);
                }
                assert forall|j: int|
                    s.in_range(j) && j != key && !path.contains(j) implies #[trigger] t.chunks[j]
                    == s.chunks[j] by {
                    assert(chained.chunks[j] == start.chunks[j]);
                    assert(filled.chunks[j] == s.chunks[j]);
                }
            } else {
                assert(t == filled);
                assert forall|j: int| s.in_range(j) && j != key implies #[trigger] t.chunks[j]
                    == s.chunks[j] by {
                    assert(filled.chunks[j] == s.chunks[j]);
                }
            }
        }
    }
}

/// The continuation chunks that a write comes to are chunks of the
/// buffer.
pub proof fn lemma_insert_path_in_range(s: RopeState, key: int, data: Seq<u8>)
    requires
        s.wf(),
    ensures
        forall|j: int| #[trigger] s.insert_path(key, data).contains(j) ==> s.in_range(j),
{
    let path = s.insert_path(key, data);
    if !s.in_range(key) || s.word(key, 0) == u32::MAX || data.len() > u32::MAX || data.len()
        <= s.room(true) {
        assert(path =~= Seq::<int>::empty());
    } else {
        let n = s.room(true);
        let piece = data.subrange(0, n);
        let rest = data.subrange(n, data.len() as int);
        let filled = s.with_bytes(key, HEAD_PAYLOAD as int, piece);
        lemma_head_filled(s, key, piece);
        lemma_first_free_except(filled, filled.next_free as int, key);
        if s.word(key, 2) > 1 {
            lemma_chain_write_keeps(filled, key, s.word(key, 2) as int, rest);
        } else {
            match filled.first_free_except(filled.next_free as int, key) {
                Some(k) => {
                    lemma_chain_write_keeps(filled.with_cursor(k + 1), key, k, rest);
                },
                None => {
                    assert(path =~= Seq::<int>::empty());
                },
            }
        }
    }
}

/// A run of writes keeps the store well formed and keeps stored what was
/// stored.
pub proof fn lemma_inserts_keep(s: RopeState, keys: Seq<int>, payloads: Seq<Seq<u8>>)
    requires
        s.wf(),
    ensures
        after_inserts(s, keys, payloads).wf(),
        forall|j: int| s.contains(j) ==> #[trigger] after_inserts(s, keys, payloads).contains(j),
    decreases keys.len(),
{
    if keys.len() > 0 {
        let t = s.after_insert(keys[0], payloads[0]).0;
        lemma_insert_keeps(s, keys[0], payloads[0]);
        lemma_inserts_keep(t, keys.drop_first(), payloads.drop_first());
        assert forall|j: int| s.contains(j) implies #[trigger] after_inserts(
            s,
            keys,
            payloads,
        ).contains(j) by {
            assert(t.contains(j));
        }
    }
}

/// After writes at keys of the caller's choosing that all succeeded, no
/// scan for an unused chunk, from wherever it starts, comes up with one of
/// those keys: so `allocate` and `alloc_peek` never return one.
pub proof fn lemma_allocator_skips_inserted(
    s: RopeState,
    keys: Seq<int>,
    payloads: Seq<Seq<u8>>,
    i: int,
    from: int,
)
    requires
        s.wf(),
        inserts_succeed(s, keys, payloads),
        0 <= i < keys.len(),
        0 <= from,
    ensures
        after_inserts(s, keys, payloads).contains(keys[i]),
        after_inserts(s, keys, payloads).first_free(from) != Some(keys[i]),
    decreases keys.len(),
{
    let t = s.after_insert(keys[0], payloads[0]).0;
    let end = after_inserts(s, keys, payloads);
    lemma_insert_keeps(s, keys[0], payloads[0]);
    if i == 0 {
        lemma_inserts_keep(t, keys.drop_first(), payloads.drop_first());
        assert(t.contains(keys[0]));
        assert(end.contains(keys[0]));
    } else {
        lemma_allocator_skips_inserted(t, keys.drop_first(), payloads.drop_first(), i - 1, from);
        assert(keys.drop_first()[i - 1] == keys[i]);
    }
    lemma_first_free(end, from);
}

/// After a write that succeeded with a payload too long for the head, the
/// last continuation chunk holds the end-of-chain mark as its next index,
/// unless that chunk is the head itself.
pub proof fn lemma_insert_ends_marked(s: RopeState, key: int, data: Seq<u8>)
    requires
        s.wf(),
        s.after_insert(key, data).1 is Ok,
        data.len() > s.room(true),
        s.insert_path(key, data).len() > 0 ==> s.insert_path(key, data).last() != key,
    ensures
        s.insert_path(key, data).len() > 0,
        s.after_insert(key, data).0.word(s.insert_path(key, data).last(), 0) == END_OF_CHAIN,
{
    lemma_long_insert(s, key, data);
    let (start, k) = tail_start(s, key, data)->0;
    let rest = data.subrange(s.room(true), data.len() as int);
    let chained = start.chain_write(key, k, rest).0;
    let path = start.chain_path(key, k, rest);
    let before = s.word(key, 2);
    let version = (s.word(key, 0) + 1) as u32;
    lemma_chain_write_keeps(start, key, k, rest);
    lemma_chain_ends_marked(start, key, k, rest);
    lemma_sealed(chained, key, before, k as u32, data.len() as u32, version);
    let sealed = chained.sealed(key, before, k as u32, data.len() as u32, version);
    let last = path.last();
    assert(path.contains(last)) by {
        assert(path[path.len() - 1] == last);
    }
    assert(sealed.word(last, 0) == END_OF_CHAIN) by {
        assert(sealed.chunks[last] == chained.chunks[last]);
    }
    lemma_long_insert_state(s, key, data);
}

/// A write to a head whose next index names no chunk writes every chunk
/// once: all its continuation chunks are newly picked. This is so for
/// every key that was never written, and for every record that never
/// needed a second chunk.
pub proof fn lemma_unlinked_write_apart(s: RopeState, key: int, data: Seq<u8>)
    requires
        s.wf(),
        s.in_range(key) ==> s.word(key, 2) <= 1,
    ensures
        s.writes_apart(key, data),
{
    let path = s.insert_path(key, data);
    if !s.in_range(key) || s.word(key, 0) == u32::MAX || data.len() > u32::MAX || data.len()
        <= s.room(true) {
        assert(path =~= Seq::<int>::empty());
    } else {
        let n = s.room(true);
        let piece = data.subrange(0, n);
        let rest = data.subrange(n, data.len() as int);
        let filled = s.with_bytes(key, HEAD_PAYLOAD as int, piece);
        lemma_head_filled(s, key, piece);
        lemma_first_free_except(filled, filled.next_free as int, key);
        match filled.first_free_except(filled.next_free as int, key) {
            Some(k) => {
                let start = filled.with_cursor(k + 1);
                assert(start.wf());
                lemma_new_chain_rises(start, key, k, rest, Set::empty());
            },
            None => {
                assert(path =~= Seq::<int>::empty());
            },
        }
    }
}

/// A write to a head that is linked to a chain of chunks as the store
/// writes them comes to no chunk twice and never back to the head: it goes
/// along the chain and then through unused chunks. So it stays clear of
/// every chunk outside the chain whose next index is not 0. What the laws
/// of this module ask of a write thus holds of every write to a record
/// that was written by this store and whose chunks nothing else has
/// written to since.
pub proof fn lemma_linked_write_apart(
    s: RopeState,
    key: int,
    links: Seq<int>,
    data: Seq<u8>,
    used: Set<int>,
)
    requires
        s.wf(),
        s.linked(key, links),
        forall|j: int|
            #[trigger] used.contains(j) ==> s.in_range(j) && s.word(j, 0) != 0 && !links.contains(
                j,
            ),
    ensures
        s.writes_apart(key, data),
        forall|j: int| #[trigger] s.insert_path(key, data).contains(j) ==> !used.contains(j),
{
    let path = s.insert_path(key, data);
    if !s.in_range(key) || s.word(key, 0) == u32::MAX || data.len() > u32::MAX || data.len()
        <= s.room(true) {
        assert(path =~= Seq::<int>::empty());
    } else {
        let n = s.room(true);
        let piece = data.subrange(0, n);
        let rest = data.subrange(n, data.len() as int);
        let filled = s.with_bytes(key, HEAD_PAYLOAD as int, piece);
        lemma_head_filled(s, key, piece);
        if links.len() == 0 {
            lemma_first_free_except(filled, filled.next_free as int, key);
            match filled.first_free_except(filled.next_free as int, key) {
                Some(k) => {
                    let start = filled.with_cursor(k + 1);
                    assert(start.wf());
                    assert forall|j: int| #[trigger] used.contains(j) implies start.in_range(j)
                        && start.word(j, 0) != 0 by {
                        assert(s.word(j, 0) != 0);
                        if j != key {
                            assert(filled.chunks[j] == s.chunks[j]);
                        }
                    }
                    lemma_new_chain_rises(start, key, k, rest, used);
                },
                None => {
                    assert(path =~= Seq::<int>::empty());
                },
            }
        } else {
            assert forall|j: int| 0 <= j < links.len() implies filled.in_range(
                #[trigger] links[j],
            ) && links[j] > 1 && filled.word(links[j], 0) != 0 && filled.chunks[links[j]]
                == s.chunks[links[j]] by {
                assert(links.contains(links[j]));
                assert(links[j] != key);
                assert(filled.chunks[links[j]] == s.chunks[links[j]]);
                if j < links.len() - 1 {
                    assert(s.word(links[j], 0) == links[j + 1]);
                }
            }
            assert(chain_whole(filled, links, 0));
            assert forall|j: int| #[trigger] used.contains(j) implies filled.in_range(j)
                && filled.word(j, 0) != 0 && !links.contains(j) by {
                assert(s.word(j, 0) != 0);
                if j != key {
                    assert(filled.chunks[j] == s.chunks[j]);
                }
            }
            lemma_old_chain_apart(filled, key, links, 0, rest, used);
            assert(path == filled.chain_path(key, links[0], rest));
        }
    }
}

/// After a write that succeeded with a payload too long for the head and
/// wrote every chunk once, the head is linked to the chain that the write
/// left: to its continuation chunks up to the first with index 1.
pub proof fn lemma_long_write_links(s: RopeState, key: int, data: Seq<u8>)
    requires
        s.wf(),
        s.after_insert(key, data).1 is Ok,
        s.writes_apart(key, data),
        data.len() > s.room(true),
    ensures
        s.after_insert(key, data).0.linked(key, links_in(s.insert_path(key, data))),
        forall|j: int|
            s.insert_path(key, data).contains(j) ==> #[trigger] s.after_insert(key, data).0.word(
                j,
                0,
            ) != 0,
{
    lemma_long_insert(s, key, data);
    lemma_long_insert_state(s, key, data);
    lemma_insert_keeps(s, key, data);
    let t = s.after_insert(key, data).0;
    let (start, k) = tail_start(s, key, data)->0;
    let rest = data.subrange(s.room(true), data.len() as int);
    let chained = start.chain_write(key, k, rest).0;
    let path = start.chain_path(key, k, rest);
    let before = s.word(key, 2);
    let version = (s.word(key, 0) + 1) as u32;
    let links = links_in(path);
    lemma_chain_write_keeps(start, key, k, rest);
    lemma_chain_links(start, key, k, rest);
    lemma_sealed(chained, key, before, k as u32, data.len() as u32, version);
    lemma_links_in(path);
    assert(chained.chunks[key] == start.chunks[key]);
    assert(t.word(key, 2) == k);
    assert forall|j: int| path.contains(j) implies #[trigger] t.chunks[j] == chained.chunks[j] by {
        assert(j != key);
    }
    assert forall|i: int| 0 <= i < path.len() implies t.word(#[trigger] path[i], 0) == (if i
        < path.len() - 1 {
        path[i + 1]
    } else {
        END_OF_CHAIN as int
    }) && t.in_range(path[i]) by {
        assert(path.contains(path[i]));
        assert(t.chunks[path[i]] == chained.chunks[path[i]]);
    }
    assert forall|j: int| path.contains(j) implies #[trigger] t.word(j, 0) != 0 by {
        let i = choose|i: int| 0 <= i < path.len() && path[i] == j;
        assert(t.word(path[i], 0) != 0);
    }
    assert(links.no_duplicates()) by {
        assert forall|a: int, b: int|
            0 <= a < links.len() && 0 <= b < links.len() && a != b implies links[a]
            != links[b] by {
            assert(links[a] == path[a]);
            assert(links[b] == path[b]);
        }
    }
    assert(!links.contains(key)) by {
        if links.contains(key) {
            let i = choose|i: int| 0 <= i < links.len() && links[i] == key;
            assert(path[i] == key);
            assert(path.contains(key));
        }
    }
    assert forall|i: int| 0 <= i < links.len() implies t.in_range(#[trigger] links[i])
        && links[i] > 1 by {
        assert(links[i] == path[i]);
    }
    if links.len() == 0 {
        assert(path[0] <= 1);
    } else {
        assert(links[0] == path[0]);
        assert forall|i: int| 0 <= i < links.len() - 1 implies t.word(#[trigger] links[i], 0)
            == links[i + 1] by {
            assert(links[i] == path[i]);
            assert(links[i + 1] == path[i + 1]);
        }
        let end = links.len() - 1;
        assert(links[end] == path[end]);
        assert(links.last() == path[end]);
        if links.len() < path.len() {
            assert(t.word(path[end], 0) == path[end + 1]);
            assert(path[end + 1] <= 1);
        }
    }
}

/// A write that fits into the head leaves the head linked to what it was
/// linked to: the chain stays as it is, for a later, longer write to go
/// along again.
pub proof fn lemma_short_write_links(s: RopeState, key: int, links: Seq<int>, data: Seq<u8>)
    requires
        s.wf(),
        s.linked(key, links),
        s.after_insert(key, data).1 is Ok,
        data.len() <= s.room(true),
    ensures
        s.after_insert(key, data).0.linked(key, links),
{
    let t = s.after_insert(key, data).0;
    let version = (s.word(key, 0) + 1) as u32;
    let before = s.word(key, 2);
    let filled = s.with_bytes(key, HEAD_PAYLOAD as int, data.subrange(0, data.len() as int));
    lemma_head_filled(s, key, data.subrange(0, data.len() as int));
    lemma_sealed(filled, key, before, before, data.len() as u32, version);
    assert forall|i: int| 0 <= i < links.len() implies #[trigger] t.chunks[links[i]]
        == s.chunks[links[i]] by {
        assert(links.contains(links[i]));
        assert(filled.chunks[links[i]] == s.chunks[links[i]]);
    }
    if links.len() > 0 {
        assert forall|i: int| 0 <= i < links.len() - 1 implies t.word(#[trigger] links[i], 0)
            == links[i + 1] by {
            assert(t.chunks[links[i]] == s.chunks[links[i]]);
        }
        assert(t.chunks[links[links.len() - 1]] == s.chunks[links[links.len() - 1]]);
    }
}

/// A chunk whose next index as a head names no chunk is soundly linked:
/// so is every chunk of a buffer of zeros.
pub proof fn lemma_unlinked_is_sound(s: RopeState, key: int)
    requires
        s.in_range(key),
        s.word(key, 2) <= 1,
    ensures
        s.sound(key),
{
    assert(s.linked(key, Seq::<int>::empty()));
}

/// A write to a soundly linked head that succeeds can be read back, and
/// leaves the head soundly linked: so every later write to the key can be
/// read back too, as long as nothing else writes to the record's chunks.
pub proof fn lemma_write_keeps_sound(s: RopeState, key: int, data: Seq<u8>)
    requires
        s.wf(),
        s.sound(key),
        s.after_insert(key, data).1 is Ok,
    ensures
        s.writes_apart(key, data),
        s.after_insert(key, data).0.stored(key) == Some(data),
        s.after_insert(key, data).0.sound(key),
{
    let links = choose|links: Seq<int>| s.linked(key, links);
    lemma_linked_write_apart(s, key, links, data, Set::empty());
    lemma_insert_then_get(s, key, data);
    let t = s.after_insert(key, data).0;
    if data.len() > s.room(true) {
        lemma_long_write_links(s, key, data);
        assert(t.linked(key, links_in(s.insert_path(key, data))));
    } else {
        lemma_short_write_links(s, key, links, data);
        assert(t.linked(key, links));
    }
}

/// Records stay apart. A record was written at `home`, and then a write
/// goes to another key whose chain shares no chunk with that record. Then
/// the record at `home` reads back as it was written, with the version it
/// had, however the other write ends.
pub proof fn lemma_other_write_keeps_record(
    s: RopeState,
    home: int,
    kept: Seq<u8>,
    key: int,
    links: Seq<int>,
    data: Seq<u8>,
)
    requires
        s.wf(),
        s.after_insert(home, kept).1 is Ok,
        s.writes_apart(home, kept),
        key != home,
        !s.insert_path(home, kept).contains(key),
        s.after_insert(home, kept).0.linked(key, links),
        !links.contains(home),
        forall|j: int| s.insert_path(home, kept).contains(j) ==> !links.contains(j),
    ensures
        s.after_insert(home, kept).0.after_insert(key, data).0.stored(home) == Some(kept),
        s.after_insert(home, kept).0.after_insert(key, data).0.version_of(home)
            == s.after_insert(home, kept).0.version_of(home),
{
    let mid = s.after_insert(home, kept).0;
    let end = mid.after_insert(key, data).0;
    let path = s.insert_path(home, kept);
    lemma_insert_keeps(s, home, kept);
    lemma_insert_keeps(mid, key, data);
    if kept.len() > s.room(true) {
        lemma_long_write_links(s, home, kept);
    } else {
        assert(path =~= Seq::<int>::empty());
    }
    let used = Set::new(|j: int| j == home || path.contains(j));
    assert forall|j: int| #[trigger] used.contains(j) implies mid.in_range(j) && mid.word(j, 0)
        != 0 && !links.contains(j) by {
        if j != home {
            lemma_insert_path_in_range(s, home, kept);
            assert(path.contains(j));
        }
    }
    lemma_linked_write_apart(mid, key, links, data, used);
    lemma_insert_touches(mid, key, data);
    assert(end.chunks[home] == mid.chunks[home]) by {
        assert(used.contains(home));
    }
    assert forall|j: int| path.contains(j) implies #[trigger] end.chunks[j] == mid.chunks[j] by {
        lemma_insert_path_in_range(s, home, kept);
        assert(used.contains(j));
    }
    lemma_insert_read_later(s, home, kept, end);
}

} // verus!
