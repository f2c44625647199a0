//! What a chain write does to a store, shown by going along the chain:
//! which chunks it touches, what it leaves in them, and when it comes to
//! no chunk twice.

use vstd::prelude::*;
use crate::rope_model::{least, RopeState, CONT_PAYLOAD, END_OF_CHAIN, HEAD_PAYLOAD};
use crate::rope_steps::{
    chain_next,
    lemma_chain_next,
    lemma_first_free_except,
    lemma_front,
    lemma_front_apart,
    lemma_link_step,
};

verus! {

/// A chain write keeps the store's shape, never moves the cursor back,
/// stays inside the buffer, changes no chunk but those on its path, and
/// never makes a version word 0 that was not 0.
pub proof fn lemma_chain_write_keeps(s: RopeState, skip: int, cur: int, data: Seq<u8>)
    requires
        s.wf(),
    ensures
        ({
            let t = s.chain_write(skip, cur, data).0;
            let path = s.chain_path(skip, cur, data);
            &&& t.wf()
            &&& t.chunks.len() == s.chunks.len()
            &&& t.chunk_size == s.chunk_size
            &&& t.next_free >= s.next_free
            &&& forall|j: int| path.contains(j) ==> s.in_range(j)
            &&& forall|j: int|
                s.in_range(j) && !path.contains(j) ==> #[trigger] t.chunks[j] == s.chunks[j]
            &&& forall|j: int| s.in_range(j) && s.word(j, 0) != 0 ==> #[trigger] t.word(j, 0) != 0
        }),
    decreases data.len(),
{
    let t = s.chain_write(skip, cur, data).0;
    let path = s.chain_path(skip, cur, data);
    if data.len() == 0 || !s.in_range(cur) {
        assert(t == s);
        assert(path =~= Seq::<int>::empty());
    } else {
        let before = s.word(cur, 0);
        let n = least(data.len() as int, s.room(false));
        let piece = data.subrange(0, n);
        let rest = data.subrange(n, data.len() as int);
        let filled = s.with_bytes(cur, CONT_PAYLOAD as int, piece);
        if n == data.len() {
            lemma_link_step(s, cur, piece, s.next_free as int, END_OF_CHAIN);
            assert(filled.with_cursor(s.next_free as int) == filled);
            assert(t == filled.with_link(cur, 0, before, END_OF_CHAIN));
            assert(path =~= seq![cur]);
            assert(path[0] == cur);
            assert forall|j: int| path.contains(j) implies s.in_range(j) by {
                let i = choose|i: int| 0 <= i < path.len() && path[i] == j;
                assert(j == cur);
            }
            assert forall|j: int| s.in_range(j) && s.word(j, 0) != 0 implies #[trigger] t.word(
                j,
                0,
            ) != 0 by {
                if j != cur {
                    assert(t.chunks[j] == s.chunks[j]);
                }
            }
        } else {
            lemma_chain_next(s, skip, cur, piece);
            lemma_link_step(s, cur, piece, 1, 0);
            match chain_next(s, skip, cur, piece) {
                Some((linked, next)) => {
                    let tail = linked.chain_path(skip, next, rest);
                    assert(t == linked.chain_write(skip, next, rest).0);
                    assert(path == seq![cur] + tail);
                    lemma_chain_write_keeps(linked, skip, next, rest);
                    lemma_front(cur, tail);
                    assert(path[0] == cur);
                    assert forall|j: int| path.contains(j) implies s.in_range(j) by {
                        if j != cur {
                            assert(tail.contains(j));
                            assert(linked.in_range(j));
                        }
                    }
                    assert forall|j: int| s.in_range(j) && !path.contains(j) implies #[trigger] t.chunks[j]
                        == s.chunks[j] by {
                        assert(j != cur && !tail.contains(j));
                        assert(t.chunks[j] == linked.chunks[j]);
                        assert(linked.chunks[j] == s.chunks[j]);
                    }
                    assert forall|j: int| s.in_range(j) && s.word(j, 0) != 0 implies #[trigger] t.word(
                        j,
                        0,
                    ) != 0 by {
                        if j != cur {
                            assert(linked.chunks[j] == s.chunks[j]);
                            assert(linked.word(j, 0) == s.word(j, 0));
                        }
                        assert(linked.word(j, 0) != 0);
                    }
                },
                None => {
                    assert(t == filled);
                    assert(path =~= seq![cur]);
                    assert(path[0] == cur);
                    assert forall|j: int| path.contains(j) implies s.in_range(j) by {
                        let i = choose|i: int| 0 <= i < path.len() && path[i] == j;
                        assert(j == cur);
                    }
                    assert forall|j: int| s.in_range(j) && s.word(j, 0) != 0 implies #[trigger] t.word(
                        j,
                        0,
                    ) != 0 by {
                        if j != cur {
                            assert(t.chunks[j] == s.chunks[j]);
                        }
                    }
                },
            }
        }
    }
}

/// A chain write leaves the slack alone.
pub proof fn lemma_chain_slack(s: RopeState, skip: int, cur: int, data: Seq<u8>)
    ensures
        s.chain_write(skip, cur, data).0.slack == s.slack,
    decreases data.len(),
{
    if data.len() != 0 && s.in_range(cur) && s.chunk_size > HEAD_PAYLOAD {
        let n = least(data.len() as int, s.room(false));
        let piece = data.subrange(0, n);
        let rest = data.subrange(n, data.len() as int);
        if n != data.len() {
            match chain_next(s, skip, cur, piece) {
                Some((linked, next)) => {
                    lemma_chain_slack(linked, skip, next, rest);
                },
                None => {},
            }
        }
    }
}

/// What a chain write wrote can be read back along the chain, in every
/// store that holds the chunks of the path as the write left them,
/// provided the write came to no chunk twice.
pub proof fn lemma_chain_reads_back(
    s: RopeState,
    skip: int,
    cur: int,
    data: Seq<u8>,
    seen: RopeState,
)
    requires
        s.wf(),
        data.len() > 0,
        s.chain_write(skip, cur, data).1,
        s.chain_path(skip, cur, data).no_duplicates(),
        seen.chunks.len() == s.chunks.len(),
        seen.chunk_size == s.chunk_size,
        forall|j: int|
            s.chain_path(skip, cur, data).contains(j) ==> #[trigger] seen.chunks[j]
                == s.chain_write(skip, cur, data).0.chunks[j],
    ensures
        seen.chain_read(cur, false, data.len()) == Some(data),
    decreases data.len(),
{
    let t = s.chain_write(skip, cur, data).0;
    let path = s.chain_path(skip, cur, data);
    let before = s.word(cur, 0);
    let n = least(data.len() as int, s.room(false));
    let piece = data.subrange(0, n);
    let rest = data.subrange(n, data.len() as int);
    let filled = s.with_bytes(cur, CONT_PAYLOAD as int, piece);
    assert(s.in_range(cur));
    if n == data.len() {
        lemma_link_step(s, cur, piece, s.next_free as int, END_OF_CHAIN);
        assert(filled.with_cursor(s.next_free as int) == filled);
        assert(t == filled.with_link(cur, 0, before, END_OF_CHAIN));
        assert(path =~= seq![cur]);
        assert(path[0] == cur);
        assert(path.contains(cur));
        assert(seen.chunks[cur] == t.chunks[cur]);
        assert(piece =~= data);
    } else {
        lemma_chain_next(s, skip, cur, piece);
        match chain_next(s, skip, cur, piece) {
            Some((linked, next)) => {
                let tail = linked.chain_path(skip, next, rest);
                assert(t == linked.chain_write(skip, next, rest).0);
                assert(path == seq![cur] + tail);
                lemma_front(cur, tail);
                lemma_chain_write_keeps(linked, skip, next, rest);
                assert(path[0] == cur);
                assert(path.contains(cur));
                assert(!tail.contains(cur));
                assert(t.chunks[cur] == linked.chunks[cur]);
                assert(seen.chunks[cur] == linked.chunks[cur]);
                assert(seen.word(cur, 0) == next);
                assert forall|j: int| tail.contains(j) implies #[trigger] seen.chunks[j]
                    == linked.chain_write(skip, next, rest).0.chunks[j] by {
                    assert(path.contains(j));
                }
                lemma_chain_reads_back(linked, skip, next, rest, seen);
                assert(piece + rest =~= data);
            },
            None => {},
        }
    }
}

/// A chain write that had chunks enough and came to no chunk twice leaves
/// the chain linked along its path: each chunk names the one behind it,
/// and the last holds the end-of-chain mark.
pub proof fn lemma_chain_links(s: RopeState, skip: int, cur: int, data: Seq<u8>)
    requires
        s.wf(),
        data.len() > 0,
        s.chain_write(skip, cur, data).1,
        s.chain_path(skip, cur, data).no_duplicates(),
    ensures
        ({
            let t = s.chain_write(skip, cur, data).0;
            let path = s.chain_path(skip, cur, data);
            &&& path.len() > 0
            &&& path[0] == cur
            &&& forall|i: int|
                0 <= i < path.len() - 1 ==> t.word(#[trigger] path[i], 0) == path[i + 1] && 1
                    <= path[i + 1]
            &&& t.word(path.last(), 0) == END_OF_CHAIN
        }),
    decreases data.len(),
{
    let t = s.chain_write(skip, cur, data).0;
    let path = s.chain_path(skip, cur, data);
    let before = s.word(cur, 0);
    let n = least(data.len() as int, s.room(false));
    let piece = data.subrange(0, n);
    let rest = data.subrange(n, data.len() as int);
    let filled = s.with_bytes(cur, CONT_PAYLOAD as int, piece);
    assert(s.in_range(cur));
    if n == data.len() {
        lemma_link_step(s, cur, piece, s.next_free as int, END_OF_CHAIN);
        assert(filled.with_cursor(s.next_free as int) == filled);
        assert(t == filled.with_link(cur, 0, before, END_OF_CHAIN));
        assert(path =~= seq![cur]);
    } else {
        lemma_chain_next(s, skip, cur, piece);
        match chain_next(s, skip, cur, piece) {
            Some((linked, next)) => {
                let tail = linked.chain_path(skip, next, rest);
                assert(t == linked.chain_write(skip, next, rest).0);
                assert(path == seq![cur] + tail);
                lemma_front(cur, tail);
                lemma_chain_links(linked, skip, next, rest);
                lemma_chain_write_keeps(linked, skip, next, rest);
                assert(!tail.contains(cur));
                assert(t.chunks[cur] == linked.chunks[cur]);
                assert forall|i: int| 0 <= i < path.len() - 1 implies t.word(
                    #[trigger] path[i],
                    0,
                ) == path[i + 1] && 1 <= path[i + 1] by {
                    if i == 0 {
                        assert(path[1] == tail[0]);
                    } else {
                        assert(path[i] == tail[i - 1]);
                        assert(path[i + 1] == tail[i]);
                    }
                }
            },
            None => {},
        }
    }
}

/// A chain write that had chunks enough leaves the end-of-chain mark in
/// the last chunk it came to.
pub proof fn lemma_chain_ends_marked(s: RopeState, skip: int, cur: int, data: Seq<u8>)
    requires
        s.wf(),
        data.len() > 0,
        s.chain_write(skip, cur, data).1,
    ensures
        s.chain_path(skip, cur, data).len() > 0,
        s.chain_path(skip, cur, data)[0] == cur,
        s.chain_write(skip, cur, data).0.word(s.chain_path(skip, cur, data).last(), 0)
            == END_OF_CHAIN,
    decreases data.len(),
{
    let t = s.chain_write(skip, cur, data).0;
    let path = s.chain_path(skip, cur, data);
    let before = s.word(cur, 0);
    let n = least(data.len() as int, s.room(false));
    let piece = data.subrange(0, n);
    let rest = data.subrange(n, data.len() as int);
    let filled = s.with_bytes(cur, CONT_PAYLOAD as int, piece);
    assert(s.in_range(cur));
    if n == data.len() {
        lemma_link_step(s, cur, piece, s.next_free as int, END_OF_CHAIN);
        assert(filled.with_cursor(s.next_free as int) == filled);
        assert(t == filled.with_link(cur, 0, before, END_OF_CHAIN));
        assert(path =~= seq![cur]);
        assert(path.last() == cur);
    } else {
        lemma_chain_next(s, skip, cur, piece);
        match chain_next(s, skip, cur, piece) {
            Some((linked, next)) => {
                let tail = linked.chain_path(skip, next, rest);
                assert(t == linked.chain_write(skip, next, rest).0);
                assert(path == seq![cur] + tail);
                lemma_chain_ends_marked(linked, skip, next, rest);
                lemma_front(cur, tail);
                assert(path[0] == cur);
            },
            None => {},
        }
    }
}

/// A chain that starts at a chunk which was picked as unused, and so lies
/// behind the cursor with a next index of 0, goes on through newly picked
/// chunks only: its path rises strictly, never meets `skip`, and never
/// meets a chunk whose next index is not 0.
pub proof fn lemma_new_chain_rises(
    s: RopeState,
    skip: int,
    cur: int,
    data: Seq<u8>,
    used: Set<int>,
)
    requires
        s.wf(),
        s.in_range(cur),
        s.word(cur, 0) == 0,
        cur < s.next_free,
        cur != skip,
        forall|j: int| #[trigger] used.contains(j) ==> s.in_range(j) && s.word(j, 0) != 0,
    ensures
        s.chain_path(skip, cur, data).no_duplicates(),
        !s.chain_path(skip, cur, data).contains(skip),
        forall|j: int|
            #[trigger] s.chain_path(skip, cur, data).contains(j) ==> cur <= j && !used.contains(j),
    decreases data.len(),
{
    let path = s.chain_path(skip, cur, data);
    if data.len() == 0 {
        assert(path =~= Seq::<int>::empty());
        assert forall|j: int| path.contains(j) implies cur <= j && !used.contains(j) by {
            let i = choose|i: int| 0 <= i < path.len() && path[i] == j;
        }
    } else {
        let n = least(data.len() as int, s.room(false));
        let piece = data.subrange(0, n);
        let rest = data.subrange(n, data.len() as int);
        let filled = s.with_bytes(cur, CONT_PAYLOAD as int, piece);
        lemma_link_step(s, cur, piece, 1, 0);
        lemma_chain_next(s, skip, cur, piece);
        let single = n == data.len() || chain_next(s, skip, cur, piece) is None;
        if single {
            assert(path =~= seq![cur]);
            assert forall|j: int| path.contains(j) implies j == cur by {
                let i = choose|i: int| 0 <= i < path.len() && path[i] == j;
            }
        } else {
            let (linked, next) = chain_next(s, skip, cur, piece)->0;
            let tail = linked.chain_path(skip, next, rest);
            lemma_first_free_except(filled, filled.next_free as int, skip);
            assert(path == seq![cur] + tail);
            assert(cur < next);
            assert(linked.chunks[next] == s.chunks[next]);
            assert(linked.word(next, 0) == 0);
            assert forall|j: int| #[trigger] used.contains(j) implies linked.in_range(j)
                && linked.word(j, 0) != 0 by {
                assert(s.word(j, 0) != 0);
                assert(j != cur);
                assert(linked.chunks[j] == s.chunks[j]);
            }
            lemma_new_chain_rises(linked, skip, next, rest, used);
            lemma_front(cur, tail);
            assert(!tail.contains(cur));
            assert forall|j: int| path.contains(j) implies cur <= j && !used.contains(j) by {
                if j != cur {
                    assert(tail.contains(j));
                }
            }
        }
    }
}

/// Whether the chain that `links` names is whole in `s` from its chunk
/// `from` on: each chunk from there on names the one behind it, the last
/// holds the end-of-chain mark, and every chunk of the chain is a chunk of
/// the buffer with an index above 1 and a next index that is not 0.
pub open spec fn chain_whole(s: RopeState, links: Seq<int>, from: int) -> bool {
    &&& 0 <= from < links.len()
    &&& links.no_duplicates()
    &&& forall|j: int|
        0 <= j < links.len() ==> s.in_range(#[trigger] links[j]) && links[j] > 1 && s.word(
            links[j],
            0,
        ) != 0
    &&& forall|j: int| from <= j < links.len() - 1 ==> s.word(#[trigger] links[j], 0) == links[j + 1]
    &&& s.word(links.last(), 0) == END_OF_CHAIN
}

/// A chain write that starts in a whole chain comes to no chunk twice: it
/// goes along the chain and then through newly picked chunks, and meets
/// neither `key` nor the chunks of the chain that lie before its start.
pub proof fn lemma_old_chain_apart(
    s: RopeState,
    key: int,
    links: Seq<int>,
    from: int,
    data: Seq<u8>,
    used: Set<int>,
)
    requires
        s.wf(),
        chain_whole(s, links, from),
        !links.contains(key),
        forall|j: int|
            #[trigger] used.contains(j) ==> s.in_range(j) && s.word(j, 0) != 0 && !links.contains(
                j,
            ),
    ensures
        s.chain_path(key, links[from], data).no_duplicates(),
        !s.chain_path(key, links[from], data).contains(key),
        forall|j: int| 0 <= j < from ==> !s.chain_path(key, links[from], data).contains(links[j]),
        forall|j: int|
            #[trigger] s.chain_path(key, links[from], data).contains(j) ==> !used.contains(j),
    decreases data.len(),
{
    let cur = links[from];
    let path = s.chain_path(key, cur, data);
    assert(links.contains(cur));
    assert(!used.contains(cur));
    if data.len() == 0 {
        assert(path =~= Seq::<int>::empty());
        assert forall|j: int| #[trigger] path.contains(j) implies !used.contains(j) by {
            let i = choose|i: int| 0 <= i < path.len() && path[i] == j;
        }
    } else {
        let before = s.word(cur, 0);
        let n = least(data.len() as int, s.room(false));
        let piece = data.subrange(0, n);
        let rest = data.subrange(n, data.len() as int);
        let filled = s.with_bytes(cur, CONT_PAYLOAD as int, piece);
        lemma_link_step(s, cur, piece, 1, 0);
        lemma_chain_next(s, key, cur, piece);
        let single = n == data.len() || chain_next(s, key, cur, piece) is None;
        if single {
            assert(path =~= seq![cur]);
            assert forall|j: int| path.contains(j) implies j == cur by {
                let i = choose|i: int| 0 <= i < path.len() && path[i] == j;
            }
        } else {
            let (linked, next) = chain_next(s, key, cur, piece)->0;
            let tail = linked.chain_path(key, next, rest);
            assert(path == seq![cur] + tail);
            assert forall|j: int| 0 <= j < links.len() implies linked.in_range(
                #[trigger] links[j],
            ) && linked.word(links[j], 0) != 0 && (j != from ==> linked.chunks[links[j]]
                == s.chunks[links[j]]) by {
                if j != from {
                    assert(links[j] != cur);
                    assert(linked.chunks[links[j]] == s.chunks[links[j]]);
                }
            }
            assert forall|j: int| #[trigger] used.contains(j) implies linked.in_range(j)
                && linked.word(j, 0) != 0 && !links.contains(j) by {
                assert(j != cur);
                assert(linked.chunks[j] == s.chunks[j]);
            }
            if before > 1 {
                assert(from < links.len() - 1);
                assert(next == links[from + 1]);
                assert(chain_whole(linked, links, from + 1));
                lemma_old_chain_apart(linked, key, links, from + 1, rest, used);
                assert(!tail.contains(cur));
            } else {
                lemma_first_free_except(filled, filled.next_free as int, key);
                let outer = used;
                let used = Set::new(|j: int| links.contains(j) || outer.contains(j));
                assert(!links.contains(next)) by {
                    if links.contains(next) {
                        let i = choose|i: int| 0 <= i < links.len() && links[i] == next;
                        assert(s.word(links[i], 0) != 0);
                        if i != from {
                            assert(filled.chunks[links[i]] == s.chunks[links[i]]);
                        }
                    }
                }
                assert(linked.chunks[next] == s.chunks[next]);
                assert(filled.chunks[next] == s.chunks[next]);
                assert(linked.word(next, 0) == 0);
                assert forall|j: int| #[trigger] used.contains(j) implies linked.in_range(j)
                    && linked.word(j, 0) != 0 by {
                    if links.contains(j) {
                        let i = choose|i: int| 0 <= i < links.len() && links[i] == j;
                        assert(linked.word(links[i], 0) != 0);
                    } else {
                        assert(outer.contains(j));
                    }
                }
                lemma_new_chain_rises(linked, key, next, rest, used);
                assert forall|j: int| #[trigger] tail.contains(j) implies !outer.contains(j) by {
                    assert(!used.contains(j));
                }
                assert(!tail.contains(cur)) by {
                    assert(used.contains(cur));
                }
                assert forall|j: int| 0 <= j < from implies !tail.contains(links[j]) by {
                    assert(links.contains(links[j]));
                    assert(used.contains(links[j]));
                }
            }
            lemma_front(cur, tail);
            lemma_front_apart(cur, tail);
            assert forall|j: int| 0 <= j < from implies !path.contains(links[j]) by {
                assert(links[j] != cur);
            }
            assert forall|j: int| #[trigger] path.contains(j) implies !used.contains(j) by {
                if j != cur {
                    assert(tail.contains(j));
                }
            }
        }
    }
}

/// The front of `path` up to its first element that is no more than 1:
/// the part of a chain that a later write goes along again, since a next
/// index of 1 counts as the end of the chain.
pub open spec fn links_in(path: Seq<int>) -> Seq<int>
    decreases path.len(),
{
    if path.len() == 0 || path[0] <= 1 {
        Seq::empty()
    } else {
        seq![path[0]] + links_in(path.drop_first())
    }
}

/// `links_in(path)` is a front of `path`, all above 1, that ends where
/// `path` ends or before an element that is no more than 1.
pub proof fn lemma_links_in(path: Seq<int>)
    ensures
        links_in(path).len() <= path.len(),
        forall|i: int|
            0 <= i < links_in(path).len() ==> #[trigger] links_in(path)[i] == path[i] && path[i]
                > 1,
        links_in(path).len() < path.len() ==> path[links_in(path).len() as int] <= 1,
    decreases path.len(),
{
    if path.len() != 0 && path[0] > 1 {
        let tail = path.drop_first();
        lemma_links_in(tail);
        let front = links_in(path);
        assert(front == seq![path[0]] + links_in(tail));
        assert forall|i: int| 0 <= i < front.len() implies #[trigger] front[i] == path[i]
            && path[i] > 1 by {
            if i > 0 {
                assert(front[i] == links_in(tail)[i - 1]);
                assert(tail[i - 1] == path[i]);
            }
        }
        if front.len() < path.len() {
            assert(tail[links_in(tail).len() as int] == path[front.len() as int]);
        }
    }
}

} // verus!
