//! Many records in one store. A book says, for each key that was written,
//! which chunks its record owns and what it holds; a store that is kept by
//! its book stays so under every write that succeeds, and every record
//! reads back as the book says.

use vstd::prelude::*;
use crate::chain_laws::{lemma_links_in, links_in};
use crate::rope_laws::{
    lemma_insert_keeps,
    lemma_insert_path_in_range,
    lemma_insert_read_later,
    lemma_insert_then_get,
    lemma_insert_touches,
    lemma_linked_write_apart,
    lemma_long_write_links,
    lemma_short_write_links,
};
use crate::rope_model::RopeState;
use crate::rope_steps::lemma_with_word;

verus! {

/// What a book says of one key.
pub struct Claim {
    /// The chunks that the head is linked to, for the next write to go
    /// along.
    pub links: Seq<int>,
    /// The continuation chunks that hold the record's payload.
    pub chain: Seq<int>,
    /// The record's payload; `None` once the key was removed.
    pub data: Option<Seq<u8>>,
}

impl Claim {
    /// Whether the record owns chunk `c`: as one that it is linked to, or
    /// as one that holds payload.
    pub open spec fn owns(self, c: int) -> bool {
        self.links.contains(c) || self.chain.contains(c)
    }
}

/// Whether store `now` holds the head at `key` and the chunks of `chain`
/// as the write of `data` to `key` in store `then` left them.
pub open spec fn written_from(
    then: RopeState,
    now: RopeState,
    key: int,
    chain: Seq<int>,
    data: Seq<u8>,
) -> bool {
    &&& then.wf()
    &&& then.after_insert(key, data).1 is Ok
    &&& then.writes_apart(key, data)
    &&& then.insert_path(key, data) == chain
    &&& now.chunks.len() == then.chunks.len()
    &&& now.chunk_size == then.chunk_size
    &&& now.chunks[key] == then.after_insert(key, data).0.chunks[key]
    &&& forall|j: int|
        chain.contains(j) ==> #[trigger] now.chunks[j] == then.after_insert(key, data).0.chunks[j]
}

/// Whether the record at `key` is in the store as some write of `data`
/// left it, with its payload in the chunks of `chain`.
pub open spec fn written(s: RopeState, key: int, chain: Seq<int>, data: Seq<u8>) -> bool {
    exists|then: RopeState| written_from(then, s, key, chain, data)
}

/// Whether every key of the book is a head that is linked to the chunks
/// the book names, and every record that was not removed is stored and in
/// the store as it was written.
pub open spec fn heads_kept(s: RopeState, book: Map<int, Claim>) -> bool {
    forall|h: int| #[trigger]
        book.contains_key(h) ==> s.linked(h, book[h].links) && (book[h].data matches Some(d)
            ==> written(s, h, book[h].chain, d) && s.contains(h))
}

/// Whether the chunks that records own are chunks of the buffer that are
/// in use, and none of them is a key of the book.
pub open spec fn owned_in_use(s: RopeState, book: Map<int, Claim>) -> bool {
    forall|h: int, c: int|
        book.contains_key(h) && #[trigger] book[h].owns(c) ==> s.in_range(c) && s.word(c, 0) != 0
            && !book.contains_key(c)
}

/// Whether no chunk is owned by two records.
pub open spec fn owned_once(book: Map<int, Claim>) -> bool {
    forall|h: int, g: int, c: int|
        book.contains_key(h) && book.contains_key(g) && h != g && #[trigger] book[h].owns(c)
            ==> !#[trigger] book[g].owns(c)
}

/// Whether every unused chunk outside the book is unlinked.
pub open spec fn unused_unlinked(s: RopeState, book: Map<int, Claim>) -> bool {
    forall|c: int|
        s.in_range(c) && !book.contains_key(c) && #[trigger] s.word(c, 0) == 0 ==> s.word(c, 2)
            <= 1
}

/// Whether the store is kept by the book: every key of the book is a head
/// that is linked to the chunks the book names, every record that was not
/// removed is in the store as it was written, the chunks that records own
/// are in use, no chunk is owned twice or is itself a key of the book,
/// and every unused chunk outside the book is unlinked.
pub open spec fn kept(s: RopeState, book: Map<int, Claim>) -> bool {
    &&& s.wf()
    &&& heads_kept(s, book)
    &&& owned_in_use(s, book)
    &&& owned_once(book)
    &&& unused_unlinked(s, book)
}

/// The book after a write to `key` that succeeded: `key` is claimed with
/// the chunks and the payload of the write, and keys that the write took
/// for continuation chunks, which only removed keys can be, are struck.
pub open spec fn book_after_write(
    s: RopeState,
    book: Map<int, Claim>,
    key: int,
    data: Seq<u8>,
) -> Map<int, Claim> {
    let path = s.insert_path(key, data);
    let links = if data.len() > s.room(true) {
        links_in(path)
    } else if book.contains_key(key) {
        book[key].links
    } else {
        Seq::empty()
    };
    Map::new(
        |h: int| h == key || (book.contains_key(h) && !path.contains(h)),
        |h: int|
            if h == key {
                Claim { links, chain: path, data: Some(data) }
            } else {
                book[h]
            },
    )
}

/// Whether chunk `c` belongs to a record of the book other than the one
/// at `key`: as its head, if that is in use, or as a chunk that it owns.
pub open spec fn of_others(s: RopeState, book: Map<int, Claim>, key: int, c: int) -> bool {
    c != key && ((book.contains_key(c) && s.word(c, 0) != 0) || exists|h: int|
        book.contains_key(h) && h != key && #[trigger] book[h].owns(c))
}

/// What a write to a kept store does, as far as the other records are
/// concerned: it comes to every chunk once and to none that belongs to
/// another record, changes no chunk but its head and those on its path,
/// and leaves its own record linked, written and stored, owning chunks of
/// its path or chunks it owned before.
pub open spec fn clean_write(s: RopeState, book: Map<int, Claim>, key: int, data: Seq<u8>) -> bool {
    let t = s.after_insert(key, data).0;
    let path = s.insert_path(key, data);
    let claim = book_after_write(s, book, key, data)[key];
    &&& s.writes_apart(key, data)
    &&& t.wf()
    &&& t.chunks.len() == s.chunks.len()
    &&& t.chunk_size == s.chunk_size
    &&& forall|c: int| #[trigger]
        path.contains(c) ==> s.in_range(c) && c != key && t.word(c, 0) != 0 && !of_others(
            s,
            book,
            key,
            c,
        )
    &&& forall|c: int|
        s.in_range(c) && c != key && !path.contains(c) ==> #[trigger] t.chunks[c] == s.chunks[c]
    &&& t.linked(key, claim.links)
    &&& written_from(s, t, key, path, data)
    &&& t.contains(key)
    &&& t.stored(key) == Some(data)
    &&& forall|c: int| #[trigger]
        claim.owns(c) ==> path.contains(c) || (book.contains_key(key) && book[key].owns(c))
}

/// A store with an empty book is kept where all its unused chunks are
/// unlinked: so is every store over a buffer of zeros.
pub proof fn lemma_new_store_kept(s: RopeState)
    requires
        s.wf(),
        forall|c: int| s.in_range(c) && #[trigger] s.word(c, 0) == 0 ==> s.word(c, 2) <= 1,
    ensures
        kept(s, Map::empty()),
{
}

/// Every record of a kept store that was not removed reads back as the
/// book says.
pub proof fn lemma_kept_reads(s: RopeState, book: Map<int, Claim>, h: int)
    requires
        s.wf(),
        heads_kept(s, book),
        book.contains_key(h),
        book[h].data is Some,
    ensures
        s.stored(h) == book[h].data,
        s.contains(h),
{
    let data = book[h].data->0;
    let then = choose|then: RopeState| written_from(then, s, h, book[h].chain, data);
    lemma_insert_read_later(then, h, data, s);
}

/// A write to a kept store that succeeds, to a key of the book or to an
/// unused chunk outside it that no record owns, is a clean write.
pub proof fn lemma_clean_write(s: RopeState, book: Map<int, Claim>, key: int, data: Seq<u8>)
    requires
        kept(s, book),
        book.contains_key(key) || s.word(key, 0) == 0,
        forall|h: int, c: int| book.contains_key(h) && #[trigger] book[h].owns(c) ==> c != key,
        s.after_insert(key, data).1 is Ok,
    ensures
        clean_write(s, book, key, data),
{
    let t = s.after_insert(key, data).0;
    let path = s.insert_path(key, data);
    let claim = book_after_write(s, book, key, data)[key];
    lemma_insert_keeps(s, key, data);
    lemma_insert_touches(s, key, data);
    lemma_insert_path_in_range(s, key, data);
    let links = if book.contains_key(key) {
        book[key].links
    } else {
        Seq::<int>::empty()
    };
    assert(s.linked(key, links));
    let used = Set::new(|c: int| of_others(s, book, key, c));
    assert forall|c: int| #[trigger] used.contains(c) implies s.in_range(c) && s.word(c, 0) != 0
        && !links.contains(c) by {
        if book.contains_key(c) && s.word(c, 0) != 0 {
            assert(s.linked(c, book[c].links));
            if links.contains(c) {
                assert(book[key].owns(c));
            }
        } else {
            let h = choose|h: int| book.contains_key(h) && h != key && #[trigger] book[h].owns(c);
            assert(book[h].owns(c));
            if links.contains(c) {
                assert(book[key].owns(c));
            }
        }
    }
    lemma_linked_write_apart(s, key, links, data, used);
    lemma_insert_then_get(s, key, data);
    if data.len() > s.room(true) {
        lemma_long_write_links(s, key, data);
        lemma_links_in(path);
        assert forall|c: int| #[trigger] claim.owns(c) implies path.contains(c) by {
            if claim.links.contains(c) {
                let i = choose|i: int| 0 <= i < claim.links.len() && claim.links[i] == c;
                assert(path[i] == c);
            }
        }
    } else {
        assert(path =~= Seq::<int>::empty());
        lemma_short_write_links(s, key, links, data);
        assert forall|c: int| #[trigger] claim.owns(c) implies path.contains(c) || (
        book.contains_key(key) && book[key].owns(c)) by {
            assert(claim.links == links);
        }
    }
    assert forall|c: int| #[trigger] path.contains(c) implies s.in_range(c) && c != key && t.word(
        c,
        0,
    ) != 0 && !of_others(s, book, key, c) by {
        assert(!used.contains(c));
    }
    assert(written_from(s, t, key, path, data));
}

/// A record of the book other than the one written to, and which the
/// write did not take for a continuation chunk, is linked and written
/// after a clean write as it was before.
pub proof fn lemma_record_stays(
    s: RopeState,
    book: Map<int, Claim>,
    key: int,
    data: Seq<u8>,
    h: int,
)
    requires
        kept(s, book),
        clean_write(s, book, key, data),
        forall|g: int, c: int| book.contains_key(g) && #[trigger] book[g].owns(c) ==> c != key,
        book.contains_key(h),
        h != key,
        !s.insert_path(key, data).contains(h),
    ensures
        s.after_insert(key, data).0.linked(h, book[h].links),
        book[h].data matches Some(d) ==> written(s.after_insert(key, data).0, h, book[h].chain, d)
            && s.after_insert(key, data).0.contains(h),
        forall|c: int|
            book[h].owns(c) ==> !s.insert_path(key, data).contains(c) && #[trigger] s.after_insert(
                key,
                data,
            ).0.chunks[c] == s.chunks[c],
{
    let t = s.after_insert(key, data).0;
    let path = s.insert_path(key, data);
    let links = book[h].links;
    assert(s.linked(h, links));
    assert(t.chunks[h] == s.chunks[h]);
    assert forall|c: int| book[h].owns(c) implies !path.contains(c) && #[trigger] t.chunks[c]
        == s.chunks[c] by {
        assert(of_others(s, book, key, c));
        assert(s.in_range(c));
    }
    assert forall|i: int| 0 <= i < links.len() implies #[trigger] t.chunks[links[i]]
        == s.chunks[links[i]] by {
        assert(links.contains(links[i]));
        assert(book[h].owns(links[i]));
    }
    if links.len() > 0 {
        assert forall|i: int| 0 <= i < links.len() - 1 implies t.word(#[trigger] links[i], 0)
            == links[i + 1] by {
            assert(t.chunks[links[i]] == s.chunks[links[i]]);
        }
        assert(t.chunks[links[links.len() - 1]] == s.chunks[links[links.len() - 1]]);
    }
    if book[h].data is Some {
        let d = book[h].data->0;
        let then = choose|then: RopeState| written_from(then, s, h, book[h].chain, d);
        assert forall|j: int| book[h].chain.contains(j) implies #[trigger] t.chunks[j]
            == then.after_insert(h, d).0.chunks[j] by {
            assert(book[h].owns(j));
            assert(t.chunks[j] == s.chunks[j]);
        }
        assert(written_from(then, t, h, book[h].chain, d));
    }
}

/// After a clean write, every key of the new book is a linked head, and
/// its record, if not removed, is written and stored.
pub proof fn lemma_heads_stay_kept(s: RopeState, book: Map<int, Claim>, key: int, data: Seq<u8>)
    requires
        kept(s, book),
        clean_write(s, book, key, data),
        forall|g: int, c: int| book.contains_key(g) && #[trigger] book[g].owns(c) ==> c != key,
    ensures
        heads_kept(s.after_insert(key, data).0, book_after_write(s, book, key, data)),
{
    let t = s.after_insert(key, data).0;
    let after = book_after_write(s, book, key, data);
    assert forall|h: int| #[trigger] after.contains_key(h) implies t.linked(h, after[h].links) && (
    after[h].data matches Some(d) ==> written(t, h, after[h].chain, d) && t.contains(h)) by {
        if h != key {
            lemma_record_stays(s, book, key, data, h);
        }
    }
}

/// After a clean write, the chunks that records own are in use, none is a
/// key of the new book, and none is owned twice.
pub proof fn lemma_owned_stay_kept(s: RopeState, book: Map<int, Claim>, key: int, data: Seq<u8>)
    requires
        kept(s, book),
        clean_write(s, book, key, data),
        forall|g: int, c: int| book.contains_key(g) && #[trigger] book[g].owns(c) ==> c != key,
    ensures
        owned_in_use(s.after_insert(key, data).0, book_after_write(s, book, key, data)),
        owned_once(book_after_write(s, book, key, data)),
{
    let t = s.after_insert(key, data).0;
    let path = s.insert_path(key, data);
    let after = book_after_write(s, book, key, data);
    assert forall|h: int, c: int| after.contains_key(h) && #[trigger] after[h].owns(c) implies t.in_range(
        c,
    ) && t.word(c, 0) != 0 && !after.contains_key(c) by {
        if h == key {
            if !path.contains(c) {
                assert(book[key].owns(c));
                assert(t.chunks[c] == s.chunks[c]);
            }
        } else {
            assert(book[h].owns(c));
            assert(of_others(s, book, key, c));
            assert(t.chunks[c] == s.chunks[c]);
        }
    }
    assert forall|h: int, g: int, c: int|
        after.contains_key(h) && after.contains_key(g) && h != g && #[trigger] after[h].owns(
            c,
        ) implies !#[trigger] after[g].owns(c) by {
        if after[g].owns(c) {
            if h == key {
                assert(book[g].owns(c));
                assert(of_others(s, book, key, c));
            } else if g == key {
                assert(book[h].owns(c));
                assert(of_others(s, book, key, c));
            } else {
                assert(book[h].owns(c));
                assert(book[g].owns(c));
            }
        }
    }
}

/// After a clean write, every unused chunk outside the new book is
/// unlinked.
pub proof fn lemma_unused_stay_unlinked(
    s: RopeState,
    book: Map<int, Claim>,
    key: int,
    data: Seq<u8>,
)
    requires
        kept(s, book),
        clean_write(s, book, key, data),
    ensures
        unused_unlinked(s.after_insert(key, data).0, book_after_write(s, book, key, data)),
{
    let t = s.after_insert(key, data).0;
    let path = s.insert_path(key, data);
    let after = book_after_write(s, book, key, data);
    assert forall|c: int|
        t.in_range(c) && !after.contains_key(c) && #[trigger] t.word(c, 0) == 0 implies t.word(c, 2)
        <= 1 by {
        if !path.contains(c) {
            assert(t.chunks[c] == s.chunks[c]);
            assert(s.word(c, 0) == 0);
        }
    }
}

/// A key of the book, and an unused chunk, is owned by no record.
pub proof fn lemma_key_is_free(s: RopeState, book: Map<int, Claim>, key: int)
    requires
        kept(s, book),
        book.contains_key(key) || (s.in_range(key) ==> s.word(key, 0) == 0),
    ensures
        forall|h: int, c: int| book.contains_key(h) && #[trigger] book[h].owns(c) ==> c != key,
{
}

/// A kept store stays kept. A write that succeeds, to a key of the book or
/// to an unused chunk, comes to every chunk once and leaves the store kept
/// by the book after the write: the record reads back as what was
/// written, and every other record that was not removed stays in the book
/// and reads back as before.
pub proof fn lemma_kept_write(s: RopeState, book: Map<int, Claim>, key: int, data: Seq<u8>)
    requires
        kept(s, book),
        book.contains_key(key) || s.word(key, 0) == 0,
        s.after_insert(key, data).1 is Ok,
    ensures
        s.writes_apart(key, data),
        kept(s.after_insert(key, data).0, book_after_write(s, book, key, data)),
        s.after_insert(key, data).0.stored(key) == Some(data),
        forall|h: int|
            book.contains_key(h) && h != key && book[h].data is Some ==> #[trigger] book_after_write(
                s,
                book,
                key,
                data,
            ).contains_key(h) && s.after_insert(key, data).0.stored(h) == book[h].data,
{
    let t = s.after_insert(key, data).0;
    let path = s.insert_path(key, data);
    let after = book_after_write(s, book, key, data);
    lemma_key_is_free(s, book, key);
    lemma_clean_write(s, book, key, data);
    lemma_heads_stay_kept(s, book, key, data);
    lemma_owned_stay_kept(s, book, key, data);
    lemma_unused_stay_unlinked(s, book, key, data);
    assert forall|h: int|
        book.contains_key(h) && h != key && book[h].data is Some implies #[trigger] after.contains_key(
        h,
    ) && t.stored(h) == book[h].data by {
        assert(s.contains(h));
        assert(of_others(s, book, key, h));
        assert(!path.contains(h));
        lemma_kept_reads(t, after, h);
    }
}

/// The book after `key` was removed: the record's payload is gone, its
/// chunks stay claimed for the next write to the key.
pub open spec fn book_after_remove(book: Map<int, Claim>, key: int) -> Map<int, Claim> {
    if book.contains_key(key) {
        book.insert(key, Claim { data: None, ..book[key] })
    } else {
        book
    }
}

/// A kept store stays kept when a key of the book is removed, and every
/// other record reads back as before.
pub proof fn lemma_kept_remove(s: RopeState, book: Map<int, Claim>, key: int)
    requires
        kept(s, book),
        book.contains_key(key),
    ensures
        kept(s.after_remove(key), book_after_remove(book, key)),
        !s.after_remove(key).contains(key),
        forall|h: int|
            book.contains_key(h) && h != key && book[h].data is Some ==> #[trigger] s.after_remove(
                key,
            ).stored(h) == book[h].data,
{
    let t = s.after_remove(key);
    let after = book_after_remove(book, key);
    assert(s.linked(key, book[key].links));
    lemma_with_word(s, key, 0, 0);
    assert forall|h: int| #[trigger] after.contains_key(h) implies t.linked(h, after[h].links) && (
    after[h].data matches Some(d) ==> written(t, h, after[h].chain, d) && t.contains(h)) by {
        let links = book[h].links;
        assert(s.linked(h, links));
        assert forall|c: int| book[h].owns(c) implies #[trigger] t.chunks[c] == s.chunks[c] by {
            assert(c != key);
        }
        assert forall|i: int| 0 <= i < links.len() implies #[trigger] t.chunks[links[i]]
            == s.chunks[links[i]] by {
            assert(links.contains(links[i]));
            assert(book[h].owns(links[i]));
        }
        if links.len() > 0 {
            assert forall|i: int| 0 <= i < links.len() - 1 implies t.word(#[trigger] links[i], 0)
                == links[i + 1] by {
                assert(t.chunks[links[i]] == s.chunks[links[i]]);
            }
            assert(t.chunks[links[links.len() - 1]] == s.chunks[links[links.len() - 1]]);
        }
        if h != key && book[h].data is Some {
            let d = book[h].data->0;
            let then = choose|then: RopeState| written_from(then, s, h, book[h].chain, d);
            assert forall|j: int| book[h].chain.contains(j) implies #[trigger] t.chunks[j]
                == then.after_insert(h, d).0.chunks[j] by {
                assert(book[h].owns(j));
                assert(t.chunks[j] == s.chunks[j]);
            }
            assert(written_from(then, t, h, book[h].chain, d));
        }
    }
    assert forall|h: int, c: int| after.contains_key(h) && #[trigger] after[h].owns(c) implies t.in_range(
        c,
    ) && t.word(c, 0) != 0 && !after.contains_key(c) by {
        assert(book[h].owns(c));
        assert(c != key);
        assert(t.chunks[c] == s.chunks[c]);
    }
    assert forall|h: int, g: int, c: int|
        after.contains_key(h) && after.contains_key(g) && h != g && #[trigger] after[h].owns(
            c,
        ) implies !#[trigger] after[g].owns(c) by {
        assert(book[h].owns(c));
        if after[g].owns(c) {
            assert(book[g].owns(c));
        }
    }
    assert forall|c: int|
        t.in_range(c) && !after.contains_key(c) && #[trigger] t.word(c, 0) == 0 implies t.word(c, 2)
        <= 1 by {
        assert(c != key);
        assert(t.chunks[c] == s.chunks[c]);
        assert(s.word(c, 0) == 0);
    }
    assert forall|h: int|
        book.contains_key(h) && h != key && book[h].data is Some implies #[trigger] t.stored(h)
        == book[h].data by {
        lemma_kept_reads(t, after, h);
    }
}

/// A kept store stays kept when its cursor moves: so `allocate` keeps it.
pub proof fn lemma_kept_cursor(s: RopeState, book: Map<int, Claim>, cursor: int)
    requires
        kept(s, book),
        cursor >= 1,
    ensures
        kept(s.with_cursor(cursor), book),
{
    let t = s.with_cursor(cursor);
    assert forall|h: int| #[trigger] book.contains_key(h) implies t.linked(h, book[h].links) && (
    book[h].data matches Some(d) ==> written(t, h, book[h].chain, d) && t.contains(h)) by {
        assert(s.linked(h, book[h].links));
        if book[h].data is Some {
            let d = book[h].data->0;
            let then = choose|then: RopeState| written_from(then, s, h, book[h].chain, d);
            assert(written_from(then, t, h, book[h].chain, d));
        }
    }
    assert forall|h: int, c: int| book.contains_key(h) && #[trigger] book[h].owns(c) implies t.in_range(
        c,
    ) && t.word(c, 0) != 0 && !book.contains_key(c) by {
        assert(s.word(c, 0) != 0);
    }
    assert forall|c: int|
        t.in_range(c) && !book.contains_key(c) && #[trigger] t.word(c, 0) == 0 implies t.word(c, 2)
        <= 1 by {
        assert(s.word(c, 0) == 0);
    }
}

} // verus!
