//! The single steps of a write: what one patch, one word, one scan and one
//! link do to a store.

use vstd::prelude::*;
use crate::rope_model::{least, RopeState, CONT_PAYLOAD, HEAD_PAYLOAD};
use crate::word::{lemma_word_outside_patch, lemma_word_round_trip, word_bytes};

verus! {

/// Payload written into a chunk can be read back there; the words in front
/// of it and all other chunks stay.
pub proof fn lemma_with_bytes(s: RopeState, k: int, at: int, data: Seq<u8>)
    requires
        s.wf(),
        s.in_range(k),
        0 <= at,
        at + data.len() <= s.chunk_size,
    ensures
        s.with_bytes(k, at, data).wf(),
        s.with_bytes(k, at, data).chunks.len() == s.chunks.len(),
        s.with_bytes(k, at, data).chunk_size == s.chunk_size,
        s.with_bytes(k, at, data).next_free == s.next_free,
        s.with_bytes(k, at, data).chunks[k].subrange(at, at + data.len()) == data,
        forall|j: int|
            s.in_range(j) && j != k ==> #[trigger] s.with_bytes(k, at, data).chunks[j] == s.chunks[j],
        forall|i: int|
            0 <= i && 4 * i + 4 <= at ==> #[trigger] s.with_bytes(k, at, data).word(k, i)
                == s.word(k, i),
{
    let t = s.with_bytes(k, at, data);
    assert(t.chunks[k].subrange(at, at + data.len()) =~= data);
    assert forall|i: int| 0 <= i && 4 * i + 4 <= at implies #[trigger] t.word(k, i) == s.word(
        k,
        i,
    ) by {
        lemma_word_outside_patch(s.chunks[k], at, data, 4 * i);
    }
    assert forall|j: int| 0 <= j < t.chunks.len() implies (#[trigger] t.chunks[j]).len()
        == t.chunk_size by {
        assert(s.chunks[j].len() == s.chunk_size);
    }
}

/// A word written into a chunk can be read back there; the chunk's other
/// words, its bytes behind the word and all other chunks stay.
pub proof fn lemma_with_word(s: RopeState, k: int, i: int, val: u32)
    requires
        s.wf(),
        s.in_range(k),
        0 <= i,
        4 * i + 4 <= s.chunk_size,
    ensures
        s.with_word(k, i, val).wf(),
        s.with_word(k, i, val).chunks.len() == s.chunks.len(),
        s.with_word(k, i, val).chunk_size == s.chunk_size,
        s.with_word(k, i, val).next_free == s.next_free,
        s.with_word(k, i, val).word(k, i) == val,
        forall|j: int|
            s.in_range(j) && j != k ==> #[trigger] s.with_word(k, i, val).chunks[j] == s.chunks[j],
        forall|j: int|
            0 <= j && j != i && 4 * j + 4 <= s.chunk_size ==> #[trigger] s.with_word(
                k,
                i,
                val,
            ).word(k, j) == s.word(k, j),
        forall|a: int, b: int|
            4 * i + 4 <= a <= b <= s.chunk_size ==> #[trigger] s.with_word(
                k,
                i,
                val,
            ).chunks[k].subrange(a, b) == s.chunks[k].subrange(a, b),
{
    let t = s.with_word(k, i, val);
    assert(s.chunks[k].len() == s.chunk_size);
    lemma_word_round_trip(s.chunks[k], 4 * i, val);
    assert forall|j: int| 0 <= j && j != i && 4 * j + 4 <= s.chunk_size implies #[trigger] t.word(
        k,
        j,
    ) == s.word(k, j) by {
        lemma_word_outside_patch(s.chunks[k], 4 * i, word_bytes(val), 4 * j);
    }
    assert forall|a: int, b: int| 4 * i + 4 <= a <= b <= s.chunk_size implies #[trigger] t.chunks[k].subrange(
        a,
        b,
    ) == s.chunks[k].subrange(a, b) by {
        assert(t.chunks[k].subrange(a, b) =~= s.chunks[k].subrange(a, b));
    }
    assert forall|j: int| 0 <= j < t.chunks.len() implies (#[trigger] t.chunks[j]).len()
        == t.chunk_size by {
        assert(s.chunks[j].len() == s.chunk_size);
    }
}

/// What a scan for an unused chunk finds: the lowest index from `from` on
/// whose version word is 0.
pub proof fn lemma_first_free(s: RopeState, from: int)
    requires
        0 <= from,
    ensures
        match s.first_free(from) {
            Some(k) => from <= k < s.chunks.len() && s.word(k, 0) == 0 && forall|j: int|
                from <= j < k ==> #[trigger] s.word(j, 0) != 0,
            None => forall|j: int| from <= j < s.chunks.len() ==> #[trigger] s.word(j, 0) != 0,
        },
    decreases s.chunks.len() - from,
{
    if from < s.chunks.len() && s.word(from, 0) != 0 {
        lemma_first_free(s, from + 1);
    }
}

/// What a scan that passes over `skip` finds: an unused chunk from `from`
/// on that is not `skip`.
pub proof fn lemma_first_free_except(s: RopeState, from: int, skip: int)
    requires
        0 <= from,
    ensures
        match s.first_free_except(from, skip) {
            Some(k) => from <= k < s.chunks.len() && s.word(k, 0) == 0 && k != skip,
            None => true,
        },
{
    lemma_first_free(s, from);
    match s.first_free(from) {
        Some(k) => {
            if k == skip {
                lemma_first_free(s, k + 1);
            }
        },
        None => {},
    }
}

/// What a sequence with one more element in front holds.
pub proof fn lemma_front(x: int, tail: Seq<int>)
    ensures
        forall|j: int| (seq![x] + tail).contains(j) <==> (j == x || tail.contains(j)),
        (seq![x] + tail).no_duplicates() ==> tail.no_duplicates() && !tail.contains(x),
        (seq![x] + tail).len() == tail.len() + 1,
        tail.len() > 0 ==> (seq![x] + tail).last() == tail.last(),
{
    let all = seq![x] + tail;
    assert forall|j: int| all.contains(j) <==> (j == x || tail.contains(j)) by {
        if all.contains(j) {
            let i = choose|i: int| 0 <= i < all.len() && all[i] == j;
            if i > 0 {
                assert(tail[i - 1] == j);
            }
        }
        if j == x {
            assert(all[0] == j);
        }
        if tail.contains(j) {
            let i = choose|i: int| 0 <= i < tail.len() && tail[i] == j;
            assert(all[i + 1] == j);
        }
    }
    if all.no_duplicates() {
        assert forall|a: int, b: int| 0 <= a < tail.len() && 0 <= b < tail.len() && a != b implies tail[a]
            != tail[b] by {
            assert(all[a + 1] == tail[a]);
            assert(all[b + 1] == tail[b]);
        }
        if tail.contains(x) {
            let i = choose|i: int| 0 <= i < tail.len() && tail[i] == x;
            assert(all[i + 1] == x);
            assert(all[0] == x);
        }
    }
}

/// A sequence with a new element in front has no element twice if the rest
/// has none twice and lacks the new one.
pub proof fn lemma_front_apart(x: int, tail: Seq<int>)
    requires
        tail.no_duplicates(),
        !tail.contains(x),
    ensures
        (seq![x] + tail).no_duplicates(),
{
    let all = seq![x] + tail;
    assert forall|a: int, b: int| 0 <= a < all.len() && 0 <= b < all.len() && a != b implies all[a]
        != all[b] by {
        if a == 0 {
            assert(tail[b - 1] == all[b]);
            assert(tail.contains(all[b]));
        } else if b == 0 {
            assert(tail[a - 1] == all[a]);
            assert(tail.contains(all[a]));
        } else {
            assert(tail[a - 1] == all[a]);
            assert(tail[b - 1] == all[b]);
        }
    }
}

/// One chunk of a chain after its payload and its next index were
/// written: the payload and the index can be read back there, the store
/// keeps its shape, and every other chunk stays.
pub proof fn lemma_link_step(s: RopeState, cur: int, piece: Seq<u8>, cursor: int, next: u32)
    requires
        s.wf(),
        s.in_range(cur),
        piece.len() <= s.room(false),
        cursor >= 1,
    ensures
        ({
            let filled = s.with_bytes(cur, CONT_PAYLOAD as int, piece);
            let linked = filled.with_cursor(cursor).with_link(cur, 0, s.word(cur, 0), next);
            &&& filled.wf()
            &&& filled.chunks.len() == s.chunks.len()
            &&& filled.chunk_size == s.chunk_size
            &&& filled.next_free == s.next_free
            &&& filled.word(cur, 0) == s.word(cur, 0)
            &&& filled.chunks[cur].subrange(CONT_PAYLOAD as int, CONT_PAYLOAD + piece.len())
                == piece
            &&& forall|j: int|
                s.in_range(j) && j != cur ==> #[trigger] filled.chunks[j] == s.chunks[j]
            &&& linked.wf()
            &&& linked.chunks.len() == s.chunks.len()
            &&& linked.chunk_size == s.chunk_size
            &&& linked.next_free == cursor
            &&& linked.word(cur, 0) == next
            &&& linked.chunks[cur].subrange(CONT_PAYLOAD as int, CONT_PAYLOAD + piece.len())
                == piece
            &&& forall|j: int|
                s.in_range(j) && j != cur ==> #[trigger] linked.chunks[j] == s.chunks[j]
        }),
{
    let filled = s.with_bytes(cur, CONT_PAYLOAD as int, piece);
    let moved = filled.with_cursor(cursor);
    let linked = moved.with_link(cur, 0, s.word(cur, 0), next);
    lemma_with_bytes(s, cur, CONT_PAYLOAD as int, piece);
    assert(filled.word(cur, 0) == s.word(cur, 0));
    assert(moved.wf());
    if next != s.word(cur, 0) {
        lemma_with_word(moved, cur, 0, next);
        assert(linked.chunks[cur].subrange(CONT_PAYLOAD as int, CONT_PAYLOAD + piece.len())
            == moved.chunks[cur].subrange(CONT_PAYLOAD as int, CONT_PAYLOAD + piece.len()));
        assert forall|j: int| s.in_range(j) && j != cur implies #[trigger] linked.chunks[j]
            == s.chunks[j] by {
            assert(moved.chunks[j] == s.chunks[j]);
        }
    } else {
        assert(linked == moved);
    }
}

/// How a chain write goes on from a chunk that does not take all the data.
pub open spec fn chain_next(s: RopeState, skip: int, cur: int, piece: Seq<u8>) -> Option<
    (RopeState, int),
> {
    let before = s.word(cur, 0);
    let filled = s.with_bytes(cur, CONT_PAYLOAD as int, piece);
    if before > 1 {
        Some((filled, before as int))
    } else {
        match filled.first_free_except(filled.next_free as int, skip) {
            Some(k) => Some((filled.with_cursor(k + 1).with_link(cur, 0, before, k as u32), k)),
            None => None,
        }
    }
}

/// The store in which a chain write goes on is well formed, has the shape
/// it had, a cursor that did not move back, the piece and the link in
/// chunk `cur`, and every other chunk as it was.
pub proof fn lemma_chain_next(s: RopeState, skip: int, cur: int, piece: Seq<u8>)
    requires
        s.wf(),
        s.in_range(cur),
        piece.len() <= s.room(false),
    ensures
        match chain_next(s, skip, cur, piece) {
            Some((linked, next)) => {
                &&& linked.wf()
                &&& linked.chunks.len() == s.chunks.len()
                &&& linked.chunk_size == s.chunk_size
                &&& linked.next_free >= s.next_free
                &&& linked.word(cur, 0) == next
                &&& 1 <= next <= u32::MAX
                &&& linked.chunks[cur].subrange(CONT_PAYLOAD as int, CONT_PAYLOAD + piece.len())
                    == piece
                &&& forall|j: int|
                    s.in_range(j) && j != cur ==> #[trigger] linked.chunks[j] == s.chunks[j]
            },
            None => true,
        },
{
    let before = s.word(cur, 0);
    let filled = s.with_bytes(cur, CONT_PAYLOAD as int, piece);
    if before > 1 {
        lemma_link_step(s, cur, piece, s.next_free as int, before);
        assert(filled.with_cursor(s.next_free as int) == filled);
    } else {
        lemma_link_step(s, cur, piece, 1, 0);
        lemma_first_free_except(filled, filled.next_free as int, skip);
        match filled.first_free_except(filled.next_free as int, skip) {
            Some(k) => {
                lemma_link_step(s, cur, piece, k + 1, k as u32);
            },
            None => {},
        }
    }
}

/// The head of a record after its payload was written: the payload can be
/// read back there, the head's words and every other chunk stay.
pub proof fn lemma_head_filled(s: RopeState, key: int, piece: Seq<u8>)
    requires
        s.wf(),
        s.in_range(key),
        piece.len() <= s.room(true),
    ensures
        ({
            let filled = s.with_bytes(key, HEAD_PAYLOAD as int, piece);
            &&& filled.wf()
            &&& filled.chunks.len() == s.chunks.len()
            &&& filled.chunk_size == s.chunk_size
            &&& filled.next_free == s.next_free
            &&& filled.word(key, 0) == s.word(key, 0)
            &&& filled.word(key, 1) == s.word(key, 1)
            &&& filled.word(key, 2) == s.word(key, 2)
            &&& filled.chunks[key].subrange(HEAD_PAYLOAD as int, HEAD_PAYLOAD + piece.len())
                == piece
            &&& forall|j: int|
                s.in_range(j) && j != key ==> #[trigger] filled.chunks[j] == s.chunks[j]
        }),
{
    lemma_with_bytes(s, key, HEAD_PAYLOAD as int, piece);
    let filled = s.with_bytes(key, HEAD_PAYLOAD as int, piece);
    assert(filled.word(key, 0) == s.word(key, 0));
    assert(filled.word(key, 1) == s.word(key, 1));
    assert(filled.word(key, 2) == s.word(key, 2));
}

/// A head after its three words were set: version and length can be
/// read back, and so can the next index where it was written or was
/// there before; the payload behind the words and every other chunk
/// stay, and so does the store's shape.
pub proof fn lemma_sealed(
    s: RopeState,
    key: int,
    before: u32,
    next: u32,
    length: u32,
    version: u32,
)
    requires
        s.wf(),
        s.in_range(key),
    ensures
        ({
            let t = s.sealed(key, before, next, length, version);
            &&& t.wf()
            &&& t.chunks.len() == s.chunks.len()
            &&& t.chunk_size == s.chunk_size
            &&& t.next_free == s.next_free
            &&& t.word(key, 0) == version
            &&& t.word(key, 1) == length
            &&& next != before || s.word(key, 2) == before ==> t.word(key, 2) == next
            &&& t.chunks[key].subrange(HEAD_PAYLOAD as int, s.chunk_size as int)
                == s.chunks[key].subrange(HEAD_PAYLOAD as int, s.chunk_size as int)
            &&& forall|j: int|
                s.in_range(j) && j != key ==> #[trigger] t.chunks[j] == s.chunks[j]
        }),
{
    let a = s.with_link(key, 2, before, next);
    if next != before {
        lemma_with_word(s, key, 2, next);
    }
    assert(a.wf());
    assert(a.chunks[key].subrange(HEAD_PAYLOAD as int, s.chunk_size as int)
        == s.chunks[key].subrange(HEAD_PAYLOAD as int, s.chunk_size as int));
    let b = a.with_word(key, 1, length);
    lemma_with_word(a, key, 1, length);
    assert(b.word(key, 2) == a.word(key, 2));
    assert(b.chunks[key].subrange(HEAD_PAYLOAD as int, s.chunk_size as int)
        == a.chunks[key].subrange(HEAD_PAYLOAD as int, s.chunk_size as int));
    let t = b.with_word(key, 0, version);
    lemma_with_word(b, key, 0, version);
    assert(t.word(key, 1) == b.word(key, 1));
    assert(t.word(key, 2) == b.word(key, 2));
    assert(t.chunks[key].subrange(HEAD_PAYLOAD as int, s.chunk_size as int)
        == b.chunks[key].subrange(HEAD_PAYLOAD as int, s.chunk_size as int));
    assert forall|j: int| s.in_range(j) && j != key implies #[trigger] t.chunks[j]
        == s.chunks[j] by {
        assert(a.chunks[j] == s.chunks[j]);
        assert(b.chunks[j] == a.chunks[j]);
    }
}

/// How a write goes about a payload that is too long for the head: the
/// store and the chunk from which the chain is written.
pub open spec fn tail_start(s: RopeState, key: int, data: Seq<u8>) -> Option<(RopeState, int)> {
    let filled = s.with_bytes(key, HEAD_PAYLOAD as int, data.subrange(0, s.room(true)));
    if s.word(key, 2) > 1 {
        Some((filled, s.word(key, 2) as int))
    } else {
        match filled.first_free_except(filled.next_free as int, key) {
            Some(k) => Some((filled.with_cursor(k + 1), k)),
            None => None,
        }
    }
}

/// A write of a payload too long for the head, taken apart: the head's
/// payload, the chain from `tail_start` on, then the head's words.
pub proof fn lemma_long_insert(s: RopeState, key: int, data: Seq<u8>)
    requires
        s.wf(),
        s.after_insert(key, data).1 is Ok,
        data.len() > s.room(true),
    ensures
        tail_start(s, key, data) is Some,
        ({
            let (start, k) = tail_start(s, key, data)->0;
            let rest = data.subrange(s.room(true), data.len() as int);
            let chained = start.chain_write(key, k, rest).0;
            &&& start.wf()
            &&& 1 <= k <= u32::MAX
            &&& rest.len() > 0
            &&& start.chain_write(key, k, rest).1
            &&& s.insert_path(key, data) == start.chain_path(key, k, rest)
            &&& start.chunks.len() == s.chunks.len()
            &&& start.chunk_size == s.chunk_size
            &&& start.word(key, 2) == s.word(key, 2)
            &&& start.chunks[key].subrange(HEAD_PAYLOAD as int, s.chunk_size as int)
                == data.subrange(0, s.room(true))
        }),
{
    let n = s.room(true);
    assert(least(data.len() as int, s.room(true)) == n);
    let piece = data.subrange(0, n);
    let rest = data.subrange(n, data.len() as int);
    let filled = s.with_bytes(key, HEAD_PAYLOAD as int, piece);
    let before = s.word(key, 2);
    assert(s.in_range(key));
    assert(s.chunks[key].len() == s.chunk_size);
    lemma_head_filled(s, key, piece);
    lemma_first_free_except(filled, filled.next_free as int, key);
    let (chained, first) = filled.cont_write(key, before, rest);
    assert(first is Some);
    assert(rest.len() > 0);
    if before > 1 {
        assert(tail_start(s, key, data) == Some((filled, before as int)));
        assert(first == Some(before as int));
    } else {
        let found = filled.first_free_except(filled.next_free as int, key);
        assert(found is Some);
        let k = found->0;
        assert(tail_start(s, key, data) == Some((filled.with_cursor(k + 1), k)));
        assert(first == Some(k));
    }
}

/// The store that a write of a payload too long for the head leaves: what
/// the chain write left, with the head's words set.
pub proof fn lemma_long_insert_state(s: RopeState, key: int, data: Seq<u8>)
    requires
        s.wf(),
        s.after_insert(key, data).1 is Ok,
        data.len() > s.room(true),
    ensures
        tail_start(s, key, data) is Some,
        ({
            let (start, k) = tail_start(s, key, data)->0;
            let rest = data.subrange(s.room(true), data.len() as int);
            s.after_insert(key, data).0.chunks == start.chain_write(key, k, rest).0.sealed(
                key,
                s.word(key, 2),
                k as u32,
                data.len() as u32,
                (s.word(key, 0) + 1) as u32,
            ).chunks
        }),
{
    let n = s.room(true);
    assert(least(data.len() as int, s.room(true)) == n);
    let piece = data.subrange(0, n);
    let rest = data.subrange(n, data.len() as int);
    let filled = s.with_bytes(key, HEAD_PAYLOAD as int, piece);
    let before = s.word(key, 2);
    lemma_long_insert(s, key, data);
    let (start, k) = tail_start(s, key, data)->0;
    let chained = start.chain_write(key, k, rest).0;
    let version = (s.word(key, 0) + 1) as u32;
    let by_link = chained.sealed(key, before, k as u32, data.len() as u32, version);
    assert(s.after_insert(key, data).0 == by_link);
}

} // verus!
