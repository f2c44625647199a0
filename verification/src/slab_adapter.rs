//! What a file system asks of the slab that holds its nodes, whichever
//! slab that is.

use vstd::prelude::*;
use crate::error::FsError;
use crate::shared_slab::SharedSlab;
use crate::slab_model::VEntry;

verus! {

/// Whether two maps agree on every key but `key`.
pub open spec fn agree_but<T>(a: Map<usize, T>, b: Map<usize, T>, key: usize) -> bool {
    forall|k: usize|
        k != key ==> (#[trigger] a.contains_key(k) == b.contains_key(k)) && (a.contains_key(k)
            ==> a[k] == b[k])
}

/// Whether two maps agree on `key`.
pub open spec fn agree_at<T>(a: Map<usize, T>, b: Map<usize, T>, key: usize) -> bool {
    a.contains_key(key) == b.contains_key(key) && (a.contains_key(key) ==> a[key] == b[key])
}

/// A store of values under keys that the store chooses, with values held
/// in memory and, for some stores, written through to a place that others
/// can see.
pub trait SlabAdapter<T>: Sized {
    /// The values that the slab holds in memory, by key.
    spec fn entries(&self) -> Map<usize, T>;

    /// The key that the next `insert` takes, if one is left.
    spec fn vacant(&self) -> Option<usize>;

    /// What every method asks for and keeps.
    spec fn usable(&self) -> bool;

    /// The value under `key`, if there is one. The slab may first bring
    /// its entry for `key` up to date, and fails where it cannot; no other
    /// entry changes.
    fn get(&mut self, key: usize) -> (r: Result<Option<&T>, FsError>)
        requires
            old(self).usable(),
        ensures
            final(self).usable(),
            agree_but(old(self).entries(), final(self).entries(), key),
            match r {
                Ok(Some(val)) => {
                    &&& final(self).entries().contains_key(key)
                    &&& final(self).entries()[key] == *val
                },
                Ok(None) => !final(self).entries().contains_key(key),
                Err(_) => agree_at(old(self).entries(), final(self).entries(), key),
            },
    ;

    /// The value under `key`, as `get` finds it, for the caller to change
    /// in memory.
    fn get_mut(&mut self, key: usize) -> (r: Result<Option<&mut T>, FsError>)
        requires
            old(self).usable(),
        ensures
            final(self).usable(),
            agree_but(old(self).entries(), final(self).entries(), key),
            match r {
                Ok(Some(val)) => {
                    &&& final(self).entries().contains_key(key)
                    &&& final(self).entries()[key] == *final(val)
                },
                Ok(None) => !final(self).entries().contains_key(key),
                Err(_) => agree_at(old(self).entries(), final(self).entries(), key),
            },
    ;

    /// Writes the value under `key` through. The values in memory stay as
    /// they are, whether or not the write succeeds.
    fn flush_mut(&mut self, key: usize) -> (r: Result<(), FsError>)
        requires
            old(self).usable(),
            old(self).entries().contains_key(key),
        ensures
            final(self).usable(),
            final(self).entries() == old(self).entries(),
    ;

    /// Holds `val` under the vacant key and returns that key. Where no key
    /// is vacant, this fails and nothing changes; where it fails otherwise,
    /// no key is lost from memory.
    fn insert(&mut self, val: T) -> (r: Result<usize, FsError>)
        requires
            old(self).usable(),
        ensures
            final(self).usable(),
            match r {
                Ok(key) => {
                    &&& old(self).vacant() == Some(key)
                    &&& final(self).entries() == old(self).entries().insert(key, val)
                },
                Err(_) => old(self).entries().dom().subset_of(final(self).entries().dom()),
            },
            old(self).vacant() is None ==> r is Err && final(self).entries() == old(self).entries(),
    ;

    /// Takes the value under `key` out of the slab.
    fn remove(&mut self, key: usize) -> (r: T)
        requires
            old(self).usable(),
            old(self).entries().contains_key(key),
        ensures
            final(self).usable(),
            final(self).entries() == old(self).entries().remove(key),
            r == old(self).entries()[key],
    ;

    /// The key that the next `insert` takes.
    fn vacant_entry_key(&self) -> (r: Result<usize, FsError>)
        requires
            self.usable(),
        ensures
            match r {
                Ok(key) => self.vacant() == Some(key),
                Err(_) => self.vacant() is None,
            },
    ;
}

impl<T, E: Fn(&T) -> Option<Vec<u8>>, D: Fn(Vec<u8>) -> Option<T>> SlabAdapter<T> for SharedSlab<
    T,
    E,
    D,
> {
    open spec fn entries(&self) -> Map<usize, T> {
        Map::new(|k: usize| self@.cached(k), |k: usize| self@.entries[k].val)
    }

    open spec fn vacant(&self) -> Option<usize> {
        match self@.vacant_key() {
            Ok(key) => Some(key),
            Err(_) => None,
        }
    }

    open spec fn usable(&self) -> bool {
        self.wf()
    }

    /// As the slab's own `get`: the entry for `key` is pulled, and the
    /// cached value is handed out where the pull succeeds.
    fn get(&mut self, key: usize) -> (r: Result<Option<&T>, FsError>)
        ensures
            old(self).same_codec(final(self)),
            final(self)@ == old(self).pull_of(key).0,
            match r {
                Ok(found) => old(self).pull_of(key).1 is Ok && match found {
                    Some(val) => final(self)@.cached(key) && final(self)@.entries[key].val == *val,
                    None => !final(self)@.cached(key),
                },
                Err(e) => old(self).pull_of(key).1 == Err::<(), FsError>(e),
            },
    {
        SharedSlab::get(self, key)
    }

    /// As the slab's own `get_mut`: the entry for `key` is pulled, and the
    /// cached value is handed out for change where the pull succeeds; the
    /// slab ends as the pull left it, but for what the caller makes of the
    /// value.
    fn get_mut(&mut self, key: usize) -> (r: Result<Option<&mut T>, FsError>)
        ensures
            old(self).same_codec(final(self)),
            ({
                let (state, outcome) = old(self).pull_of(key);
                match r {
                    Ok(Some(val)) => {
                        &&& outcome is Ok
                        &&& state.cached(key)
                        &&& *val == state.entries[key].val
                        &&& final(self)@.entries == state.entries.insert(
                            key,
                            VEntry { ver: state.entries[key].ver, val: *final(val) },
                        )
                        &&& final(self)@.rope == state.rope
                        &&& final(self)@.next_key == state.next_key
                    },
                    Ok(None) => {
                        &&& outcome is Ok
                        &&& !state.cached(key)
                        &&& final(self)@.entries == state.entries
                        &&& final(self)@.rope == state.rope
                        &&& final(self)@.next_key == state.next_key
                    },
                    Err(e) => outcome == Err::<(), FsError>(e) && final(self)@ == state,
                }
            }),
    {
        SharedSlab::get_mut(self, key)
    }

    /// As the slab's own `flush_mut`: the cached value is encoded and
    /// stored at `key`, and the cached version becomes the record's.
    fn flush_mut(&mut self, key: usize) -> (r: Result<(), FsError>)
        ensures
            old(self).same_codec(final(self)),
            (final(self)@, r) == old(self)@.flushed(key, old(self).cached_encoding(key)),
            r is Ok && old(self)@.rope is Some && old(self)@.rope->0.sound(key as int) ==> {
                &&& final(self)@.rope is Some
                &&& final(self)@.rope->0.stored(key as int) == old(self).cached_encoding(key)
                &&& final(self)@.fresh(key)
            },
    {
        let r = SharedSlab::flush_mut(self, key);
        proof {
            assert(self.entries() =~= old(self).entries());
        }
        r
    }

    /// As the slab's own `insert`: the value is cached under the vacant
    /// key and flushed. It fails only where no key is vacant or the flush
    /// fails.
    fn insert(&mut self, val: T) -> (r: Result<usize, FsError>)
        ensures
            old(self).same_codec(final(self)),
            (final(self)@, r) == old(self)@.inserted(val, old(self).encoding(val)),
            r matches Ok(key) ==> {
                &&& final(self)@.cached(key)
                &&& final(self)@.entries[key].val == val
                &&& old(self)@.rope is Some && old(self)@.rope->0.sound(key as int) ==> {
                    &&& final(self)@.rope is Some
                    &&& final(self)@.rope->0.stored(key as int) == old(self).encoding(val)
                    &&& final(self)@.fresh(key)
                }
            },
    {
        let r = SharedSlab::insert(self, val);
        proof {
            match r {
                Ok(key) => {
                    assert(self.entries() =~= old(self).entries().insert(key, val));
                },
                Err(_) => {
                    if old(self).vacant() is None {
                        assert(self.entries() =~= old(self).entries());
                    }
                },
            }
        }
        r
    }

    fn remove(&mut self, key: usize) -> (r: T) {
        let r = SharedSlab::remove(self, key);
        proof {
            assert(self.entries() =~= old(self).entries().remove(key));
        }
        r
    }

    fn vacant_entry_key(&self) -> (r: Result<usize, FsError>) {
        SharedSlab::vacant_entry_key(self)
    }
}

} // verus!
