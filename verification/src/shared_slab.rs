//! The versioned slab: values of any type, cached by key, over a rope
//! store in a buffer that other slabs may be attached to as well.
//!
//! A read compares the version it has cached with the version in the
//! buffer and decodes the record again where they differ. A write encodes
//! the cached value, stores it at the same key and takes over the new
//! version. Without a buffer the slab is a plain map from keys to values.

use std::collections::hash_map;
use std::collections::HashMap;
use vstd::prelude::*;
use vstd::pervasive::unreached;
use vstd::std_specs::iter::IteratorSpec;
use crate::chunked::Chunked;
use crate::error::FsError;
use crate::layout::{chunks_of, slack_of};
use crate::rope_laws::{lemma_insert_keeps, lemma_write_keeps_sound};
use crate::ropes::Ropes;
use crate::slab_model::{SlabState, VEntry, CHUNK_SIZE, ROOT_KEY};

verus! {

broadcast use vstd::std_specs::hash::group_hash_axioms;

/// The bytes that an encoder returned, if it returned any.
pub open spec fn bytes_of(out: Option<Vec<u8>>) -> Option<Seq<u8>> {
    match out {
        Some(bytes) => Some(bytes@),
        None => None,
    }
}

/// What a slab asks of its encoder: it takes every value, and what it
/// makes of a value depends on the value alone.
pub open spec fn encoder_ok<T, E: Fn(&T) -> Option<Vec<u8>>>(encode: E) -> bool {
    &&& forall|v: &T| #[trigger] call_requires(encode, (v,))
    &&& forall|v: &T, a: Option<Vec<u8>>, b: Option<Vec<u8>>|
        #![trigger call_ensures(encode, (v,), a), call_ensures(encode, (v,), b)]
        call_ensures(encode, (v,), a) && call_ensures(encode, (v,), b) ==> bytes_of(a) == bytes_of(
            b,
        )
}

/// What a slab asks of its decoder: it takes every byte string, and what
/// it makes of one depends on the bytes alone.
pub open spec fn decoder_ok<T, D: Fn(Vec<u8>) -> Option<T>>(decode: D) -> bool {
    &&& forall|b: Vec<u8>| #[trigger] call_requires(decode, (b,))
    &&& forall|b1: Vec<u8>, b2: Vec<u8>, o1: Option<T>, o2: Option<T>|
        #![trigger call_ensures(decode, (b1,), o1), call_ensures(decode, (b2,), o2)]
        b1@ == b2@ && call_ensures(decode, (b1,), o1) && call_ensures(decode, (b2,), o2) ==> o1
            == o2
}

/// What `encode` makes of `val`: its bytes, or nothing where it fails.
pub open spec fn encoding_by<T, E: Fn(&T) -> Option<Vec<u8>>>(encode: E, val: T) -> Option<
    Seq<u8>,
> {
    bytes_of(choose|out: Option<Vec<u8>>| call_ensures(encode, (&val,), out))
}

/// Whether `decode` can return `out` for the bytes `bytes`.
pub open spec fn decodes_to<T, D: Fn(Vec<u8>) -> Option<T>>(
    decode: D,
    bytes: Seq<u8>,
    out: Option<T>,
) -> bool {
    exists|b: Vec<u8>| b@ == bytes && #[trigger] call_ensures(decode, (b,), out)
}

/// What `decode` makes of `bytes`: a value, or nothing where it fails.
pub open spec fn decoding_by<T, D: Fn(Vec<u8>) -> Option<T>>(decode: D, bytes: Seq<u8>) -> Option<
    T,
> {
    choose|out: Option<T>| decodes_to(decode, bytes, out)
}

/// A versioned slab of values of type `T`, with the encoder and the
/// decoder that turn a value into a record's bytes and back.
pub struct SharedSlab<T, E, D> {
    cache: HashMap<usize, VEntry<T>>,
    ropes: Option<Ropes>,
    next_key: usize,
    encode: E,
    decode: D,
}

impl<T, E: Fn(&T) -> Option<Vec<u8>>, D: Fn(Vec<u8>) -> Option<T>> View for SharedSlab<T, E, D> {
    type V = SlabState<T>;

    closed spec fn view(&self) -> SlabState<T> {
        SlabState {
            entries: self.cache@,
            rope: match self.ropes {
                Some(ropes) => Some(ropes@),
                None => None,
            },
            next_key: self.next_key as nat,
        }
    }
}

impl<T, E: Fn(&T) -> Option<Vec<u8>>, D: Fn(Vec<u8>) -> Option<T>> SharedSlab<T, E, D> {
    /// The slab's encoder.
    pub closed spec fn encoder(&self) -> E {
        self.encode
    }

    /// The slab's decoder.
    pub closed spec fn decoder(&self) -> D {
        self.decode
    }

    /// What the slab's encoder makes of `val`.
    pub open spec fn encoding(&self, val: T) -> Option<Seq<u8>> {
        encoding_by(self.encoder(), val)
    }

    /// What the slab's decoder makes of `bytes`.
    pub open spec fn decoding(&self, bytes: Seq<u8>) -> Option<T> {
        decoding_by(self.decoder(), bytes)
    }

    /// What the slab's encoder makes of the value cached under `key`;
    /// nothing where none is cached.
    pub open spec fn cached_encoding(&self, key: usize) -> Option<Seq<u8>> {
        if self@.cached(key) {
            self.encoding(self@.entries[key].val)
        } else {
            None
        }
    }

    /// The slab after a pull of `key`, and how the pull ends: the record's
    /// bytes, where they are fetched, go to the slab's decoder.
    pub open spec fn pull_of(&self, key: usize) -> (SlabState<T>, Result<(), FsError>) {
        self@.pulled(key, self.decoding(self@.reload_bytes(key)))
    }

    /// What every method asks for and keeps: a well-formed state, and a
    /// codec that a slab can work with.
    pub open spec fn wf(&self) -> bool {
        &&& self@.wf()
        &&& encoder_ok(self.encoder())
        &&& decoder_ok(self.decoder())
    }

    /// Whether `other` works with the codec of this slab.
    pub open spec fn same_codec(&self, other: &Self) -> bool {
        self.encoder() == other.encoder() && self.decoder() == other.decoder()
    }

    /// A detached slab without entries.
    pub fn new(encode: E, decode: D) -> (r: Self)
        requires
            encoder_ok(encode),
            decoder_ok(decode),
        ensures
            r.wf(),
            r.encoder() == encode,
            r.decoder() == decode,
            r@ == (SlabState::<T> { entries: Map::empty(), rope: None, next_key: 0 }),
    {
        SharedSlab { cache: HashMap::new(), ropes: None, next_key: 0, encode, decode }
    }

    /// Encodes the value cached under `key`.
    fn encode_cached(&self, key: usize) -> (r: Option<Vec<u8>>)
        requires
            self.wf(),
        ensures
            bytes_of(r) == self.cached_encoding(key),
    {
        match self.cache.get(&key) {
            Some(entry) => {
                assert(call_requires(self.encode, (&entry.val,)));
                let out = (self.encode)(&entry.val);
                proof {
                    let val = entry.val;
                    let chosen = choose|o: Option<Vec<u8>>| call_ensures(self.encode, (&val,), o);
                    assert(call_ensures(self.encode, (&val,), out));
                    assert(call_ensures(self.encode, (&val,), chosen));
                }
                out
            },
            None => None,
        }
    }

    /// Decodes `data`.
    fn decode_bytes(&self, data: Vec<u8>) -> (r: Option<T>)
        requires
            self.wf(),
        ensures
            r == self.decoding(data@),
    {
        assert(call_requires(self.decode, (data,)));
        let ghost bytes = data@;
        let ghost handed = data;
        let out = (self.decode)(data);
        proof {
            assert(call_ensures(self.decode, (handed,), out));
            assert(decodes_to(self.decode, bytes, out));
            let chosen = choose|o: Option<T>| decodes_to(self.decode, bytes, o);
            assert(decodes_to(self.decode, bytes, chosen));
            let witness = choose|b: Vec<u8>|
                b@ == bytes && #[trigger] call_ensures(self.decode, (b,), chosen);
            assert(call_ensures(self.decode, (witness,), chosen));
        }
        out
    }

    /// Whether `entry` is there and has the version `ver`.
    fn same_ver(entry: Option<&VEntry<T>>, ver: u32) -> (r: bool)
        ensures
            r == (entry matches Some(e) && e.ver == ver),
    {
        match entry {
            Some(e) => e.ver == ver,
            None => false,
        }
    }

    /// Brings the cached entry for `key` up to date with the buffer.
    fn pull(&mut self, key: usize) -> (r: Result<(), FsError>)
        requires
            old(self).wf(),
        ensures
            final(self).wf(),
            old(self).same_codec(final(self)),
            (final(self)@, r) == old(self)@.pulled(
                key,
                old(self).decoding(old(self)@.reload_bytes(key)),
            ),
    {
        let ver: u32 = match &self.ropes {
            Some(ropes) => ropes.ver_peek(key),
            None => {
                return Ok(());
            },
        };
        if Self::same_ver(self.cache.get(&key), ver) {
            return Ok(());
        }
        let fetched = match &self.ropes {
            Some(ropes) => ropes.get(key),
            None => Err(FsError::InvalidData),
        };
        match fetched {
            Ok(data) => match self.decode_bytes(data) {
                Some(val) => {
                    self.cache.insert(key, VEntry { ver, val });
                    Ok(())
                },
                None => Err(FsError::InvalidData),
            },
            Err(e) => Err(e),
        }
    }

    /// The value under `key`, brought up to date with the buffer first.
    ///
    /// Detached, this is the cached value, if there is one. Attached, a
    /// cached value whose version is the one in the buffer is returned as
    /// it is; otherwise the record is fetched and decoded, and the result
    /// replaces the cached entry. Fails with `InvalidData`, and leaves the
    /// cache alone, where the record's chain is broken or its bytes do not
    /// decode.
    pub fn get(&mut self, key: usize) -> (r: Result<Option<&T>, FsError>)
        requires
            old(self).wf(),
        ensures
            final(self).wf(),
            old(self).same_codec(final(self)),
            final(self)@ == old(self)@.pulled(
                key,
                old(self).decoding(old(self)@.reload_bytes(key)),
            ).0,
            match r {
                Ok(found) => old(self)@.pulled(
                    key,
                    old(self).decoding(old(self)@.reload_bytes(key)),
                ).1 is Ok && match found {
                    Some(val) => final(self)@.cached(key) && final(self)@.entries[key].val == *val,
                    None => !final(self)@.cached(key),
                },
                Err(e) => old(self)@.pulled(
                    key,
                    old(self).decoding(old(self)@.reload_bytes(key)),
                ).1 == Err::<(), FsError>(e),
            },
    {
        match self.pull(key) {
            Ok(()) => match self.cache.get(&key) {
                Some(entry) => Ok(Some(&entry.val)),
                None => Ok(None),
            },
            Err(e) => Err(e),
        }
    }

    /// The value under `key`, brought up to date as by `get`, for the
    /// caller to change in the cache. The change reaches the buffer with
    /// the next `flush_mut` of the key.
    pub fn get_mut(&mut self, key: usize) -> (r: Result<Option<&mut T>, FsError>)
        requires
            old(self).wf(),
        ensures
            final(self).wf(),
            old(self).same_codec(final(self)),
            ({
                let (state, outcome) = old(self)@.pulled(
                    key,
                    old(self).decoding(old(self)@.reload_bytes(key)),
                );
                match r {
                    Ok(Some(val)) => {
                        &&& outcome is Ok
                        &&& state.cached(key)
                        &&& *val == state.entries[key].val
                        &&& final(self)@.entries == state.entries.insert(
                            key,
                            VEntry { ver: state.entries[key].ver, val: *final(val) },
                        )
                        &&& final(self)@.rope == state.rope
                        &&& final(self)@.next_key == state.next_key
                    },
                    Ok(None) => {
                        &&& outcome is Ok
                        &&& !state.cached(key)
                        &&& final(self)@.entries == state.entries
                        &&& final(self)@.rope == state.rope
                        &&& final(self)@.next_key == state.next_key
                    },
                    Err(e) => outcome == Err::<(), FsError>(e) && final(self)@ == state,
                }
            }),
    {
        match self.pull(key) {
            Ok(()) => match self.cache.entry(key) {
                std::collections::hash_map::Entry::Occupied(slot) => {
                    let entry = slot.into_mut();
                    Ok(Some(&mut entry.val))
                },
                std::collections::hash_map::Entry::Vacant(_) => Ok(None),
            },
            Err(e) => Err(e),
        }
    }

    /// Stores `encoded`, the encoding of the value cached under `key`, as
    /// the record at `key`, and returns the record's version. An encoding
    /// that failed gives `IOError`; a detached slab stores nothing and
    /// returns version 0.
    pub fn push(&mut self, key: usize, encoded: Option<Vec<u8>>) -> (r: Result<u32, FsError>)
        requires
            old(self).wf(),
        ensures
            final(self).wf(),
            old(self).same_codec(final(self)),
            (final(self)@, r) == old(self)@.pushed(key, bytes_of(encoded)),
    {
        match encoded {
            Some(bytes) => match &mut self.ropes {
                Some(ropes) => {
                    ropes.insert_at(key, bytes.as_slice())
                },
                None => Ok(0),
            },
            None => Err(FsError::IOError),
        }
    }

    /// Writes the value cached under `key` to the buffer: encodes it,
    /// stores the bytes at `key`, and takes the record's new version as
    /// the cached one. Detached, the cached version becomes 0.
    ///
    /// Fails with `IOError` where the value does not encode, and with the
    /// store's error where the record cannot be written; the cached entry
    /// then stays as it was.
    pub fn flush_mut(&mut self, key: usize) -> (r: Result<(), FsError>)
        requires
            old(self).wf(),
            old(self)@.cached(key),
        ensures
            final(self).wf(),
            old(self).same_codec(final(self)),
            (final(self)@, r) == old(self)@.flushed(key, old(self).cached_encoding(key)),
            final(self)@.cached(key),
            final(self)@.entries[key].val == old(self)@.entries[key].val,
            r is Ok && old(self)@.rope is Some && old(self)@.rope->0.sound(key as int) ==> {
                &&& final(self)@.rope is Some
                &&& final(self)@.rope->0.stored(key as int) == old(self).cached_encoding(key)
                &&& final(self)@.rope->0.sound(key as int)
                &&& final(self)@.fresh(key)
            },
    {
        proof {
            let encoded = old(self).cached_encoding(key);
            if old(self)@.rope is Some && encoded is Some {
                lemma_insert_keeps(old(self)@.rope->0, key as int, encoded->0);
                if old(self)@.rope->0.sound(key as int) && old(self)@.rope->0.after_insert(
                    key as int,
                    encoded->0,
                ).1 is Ok {
                    lemma_write_keeps_sound(old(self)@.rope->0, key as int, encoded->0);
                }
            }
        }
        let encoded = self.encode_cached(key);
        match self.push(key, encoded) {
            Ok(ver) => {
                match self.cache.remove(&key) {
                    Some(entry) => {
                        self.cache.insert(key, VEntry { ver, val: entry.val });
                    },
                    None => {},
                }
                proof {
                    let want = old(self)@.flushed(key, old(self).cached_encoding(key)).0;
                    assert(self@.entries =~= want.entries);
                }
                Ok(())
            },
            Err(e) => Err(e),
        }
    }

    /// The key that the next `insert` takes. Fails with `OutOfBuffer` where
    /// none is left.
    pub fn vacant_entry_key(&self) -> (r: Result<usize, FsError>)
        requires
            self.wf(),
        ensures
            r == self@.vacant_key(),
    {
        match &self.ropes {
            Some(ropes) => ropes.alloc_peek(),
            None => {
                if self.next_key < usize::MAX {
                    Ok(self.next_key)
                } else {
                    Err(FsError::OutOfBuffer)
                }
            },
        }
    }

    /// Takes the vacant key and moves the cursor, or the counter, behind
    /// it.
    fn claim(&mut self) -> (r: Result<usize, FsError>)
        requires
            old(self).wf(),
        ensures
            final(self).wf(),
            old(self).same_codec(final(self)),
            r == old(self)@.vacant_key(),
            match r {
                Ok(key) => final(self)@ == old(self)@.claimed(key),
                Err(_) => final(self)@ == old(self)@,
            },
    {
        let picked = match &mut self.ropes {
            Some(ropes) => ropes.allocate(),
            None => {
                if self.next_key < usize::MAX {
                    Ok(self.next_key)
                } else {
                    Err(FsError::OutOfBuffer)
                }
            },
        };
        match picked {
            Ok(key) => {
                proof {
                    if old(self)@.rope is Some {
                        crate::rope_steps::lemma_first_free(
                            old(self)@.rope->0,
                            old(self)@.rope->0.next_free as int,
                        );
                    }
                }
                self.next_key = key + 1;
                Ok(key)
            },
            Err(e) => Err(e),
        }
    }

    /// Inserts `val` under the vacant key and flushes it. Returns the key.
    ///
    /// Fails with `OutOfBuffer`, and changes nothing, where no key is
    /// left. Where the flush fails, its error is returned, and the value
    /// stays cached under the key with version 0.
    pub fn insert(&mut self, val: T) -> (r: Result<usize, FsError>)
        requires
            old(self).wf(),
        ensures
            final(self).wf(),
            old(self).same_codec(final(self)),
            (final(self)@, r) == old(self)@.inserted(val, old(self).encoding(val)),
            r matches Ok(key) ==> {
                &&& old(self)@.vacant_key() == Ok::<usize, FsError>(key)
                &&& final(self)@.cached(key)
                &&& final(self)@.entries[key].val == val
                &&& old(self)@.rope is Some && old(self)@.rope->0.sound(key as int) ==> {
                    &&& final(self)@.rope is Some
                    &&& final(self)@.rope->0.stored(key as int) == old(self).encoding(val)
                    &&& final(self)@.fresh(key)
                }
            },
    {
        match self.claim() {
            Ok(key) => {
                self.cache.insert(key, VEntry { ver: 0, val });
                proof {
                    if old(self)@.rope is Some && old(self)@.rope->0.sound(key as int) {
                        let links = choose|links: Seq<int>|
                            old(self)@.rope->0.linked(key as int, links);
                        assert(self@.rope->0.linked(key as int, links));
                    }
                }
                match self.flush_mut(key) {
                    Ok(()) => Ok(key),
                    Err(e) => Err(e),
                }
            },
            Err(e) => Err(e),
        }
    }

    /// Removes the entry under `key` from the cache and, where the slab is
    /// attached, the record at `key` from the buffer. Returns the cached
    /// value.
    pub fn remove(&mut self, key: usize) -> (r: T)
        requires
            old(self).wf(),
            old(self)@.cached(key),
        ensures
            final(self).wf(),
            old(self).same_codec(final(self)),
            final(self)@ == old(self)@.removed(key),
            r == old(self)@.entries[key].val,
    {
        match &mut self.ropes {
            Some(ropes) => {
                ropes.remove(key);
            },
            None => {},
        }
        match self.cache.remove(&key) {
            Some(entry) => entry.val,
            None => unreached(),
        }
    }

    /// Whether a value is cached under `key`.
    pub fn contains(&self, key: usize) -> (r: bool)
        requires
            self.wf(),
        ensures
            r == self@.cached(key),
    {
        self.cache.contains_key(&key)
    }

    /// Attaches the slab to `buf`, cut into chunks of `CHUNK_SIZE` bytes.
    /// Where the buffer holds no root yet and the cache does, the cached
    /// root is flushed, so that the root exists; a slab that attaches to a
    /// buffer that has one keeps what it finds there.
    pub fn attach(&mut self, buf: Vec<u8>) -> (r: Result<(), FsError>)
        requires
            old(self).wf(),
            buf@.len() as int / CHUNK_SIZE as int <= u32::MAX,
        ensures
            final(self).wf(),
            old(self).same_codec(final(self)),
            (final(self)@, r) == old(self)@.attached(buf@, old(self).cached_encoding(ROOT_KEY)),
    {
        let ropes = Ropes::new(Chunked::new(buf, CHUNK_SIZE));
        let root_version: u32 = ropes.ver_peek(ROOT_KEY);
        self.ropes = Some(ropes);
        if root_version == 0 && self.cache.contains_key(&ROOT_KEY) {
            self.flush_mut(ROOT_KEY)
        } else {
            Ok(())
        }
    }

    /// Detaches the slab and hands its buffer back, for another slab to
    /// attach to. The cache stays.
    pub fn detach(&mut self) -> (r: Option<Vec<u8>>)
        requires
            old(self).wf(),
        ensures
            final(self).wf(),
            old(self).same_codec(final(self)),
            final(self)@ == (SlabState { rope: None, ..old(self)@ }),
            match r {
                Some(buf) => {
                    &&& old(self)@.rope is Some
                    &&& chunks_of(buf@, CHUNK_SIZE as int) == old(self)@.rope->0.chunks
                    &&& slack_of(buf@, CHUNK_SIZE as int) == old(self)@.rope->0.slack
                    &&& buf@.len() as int / CHUNK_SIZE as int <= u32::MAX
                },
                None => old(self)@.rope is None,
            },
    {
        match self.ropes.take() {
            Some(ropes) => Some(ropes.into_storage().into_inner()),
            None => None,
        }
    }
}

/// Takes the next item off any walk that keeps to the laws of walks.
fn advance<I: Iterator>(walk: &mut I) -> (r: Option<I::Item>)
    requires
        (*old(walk)).obeys_prophetic_iter_laws(),
    ensures
        (*final(walk)).obeys_prophetic_iter_laws(),
        (*old(walk)).remaining().len() > 0 ==> (*final(walk)).remaining() == (*old(
            walk,
        )).remaining().drop_first() && r == Some((*old(walk)).remaining()[0]),
        (*old(walk)).remaining().len() == 0 ==> (*final(walk)).remaining() == (*old(
            walk,
        )).remaining() && r is None,
{
    walk.next()
}

/// A walk over the cached entries of a slab, in no particular order.
pub struct Iter<'a, T> {
    entries: hash_map::Iter<'a, usize, VEntry<T>>,
}

impl<'a, T> Iter<'a, T> {
    /// The walk over the cache that this walk goes by.
    pub closed spec fn inner(&self) -> hash_map::Iter<'a, usize, VEntry<T>> {
        self.entries
    }

    /// A walk that yields what `entries` yields: each key with its value.
    pub fn new(entries: hash_map::Iter<'a, usize, VEntry<T>>) -> (r: Self)
        ensures
            r.inner() == entries,
    {
        Iter { entries }
    }

    /// The next entry of the walk: its key and its value; `None` at the
    /// end.
    pub fn next(&mut self) -> (r: Option<(usize, &'a T)>)
        ensures
            old(self).inner().remaining().len() > 0 ==> {
                &&& final(self).inner().remaining() == old(self).inner().remaining().drop_first()
                &&& r == Some(
                    (*old(self).inner().remaining()[0].0, &old(self).inner().remaining()[0].1.val),
                )
            },
            old(self).inner().remaining().len() == 0 ==> {
                &&& r is None
                &&& final(self).inner().remaining() == old(self).inner().remaining()
            },
    {
        match advance(&mut self.entries) {
            Some((key, entry)) => Some((*key, &entry.val)),
            None => None,
        }
    }
}

impl<T, E: Fn(&T) -> Option<Vec<u8>>, D: Fn(Vec<u8>) -> Option<T>> SharedSlab<T, E, D> {
    /// A walk over the cached entries: each cached key once, with its
    /// value. Records of the buffer that the slab has not read are not
    /// among them.
    pub fn iter(&self) -> (r: Iter<'_, T>)
        requires
            self.wf(),
        ensures
            r.inner().remaining().len() == self@.entries.dom().len(),
            r.inner().remaining().no_duplicates(),
            forall|i: int|
                0 <= i < r.inner().remaining().len() ==> self@.cached(
                    *(#[trigger] r.inner().remaining()[i]).0,
                ) && self@.entries[*r.inner().remaining()[i].0] == *r.inner().remaining()[i].1,
            forall|key: usize|
                self@.cached(key) ==> exists|i: int|
                    0 <= i < r.inner().remaining().len() && *(#[trigger] r.inner().remaining()[i]).0
                        == key,
    {
        let entries = self.cache.iter();
        proof {
            vstd::std_specs::hash::axiom_spec_hash_map_iter(&self.cache);
            let seen = entries.remaining();
            assert forall|key: usize| self@.cached(key) implies exists|i: int|
                0 <= i < seen.len() && *(#[trigger] seen[i]).0 == key by {
                assert(seen.contains((&key, &self.cache@[key])));
            }
        }
        Iter::new(entries)
    }
}

} // verus!
