//! The versioned slab as a mathematical object: the cached entries, the
//! rope store it is attached to, if any, and what each operation makes of
//! them once the codec has spoken.

use vstd::prelude::*;
use crate::error::FsError;
use crate::layout::{chunks_of, slack_of};
use crate::rope_model::RopeState;

verus! {

/// The key of the root entry.
pub const ROOT_KEY: usize = 0;

/// The size of the chunks of every buffer that a slab attaches to.
pub const CHUNK_SIZE: usize = 1024;

/// A cached value, with the version that the buffer held when the value
/// was last read from it or written to it.
pub struct VEntry<T> {
    pub ver: u32,
    pub val: T,
}

/// The state of a slab.
pub struct SlabState<T> {
    /// The cached entries.
    pub entries: Map<usize, VEntry<T>>,
    /// The rope store over the attached buffer; `None` while detached.
    pub rope: Option<RopeState>,
    /// The key that the next insertion takes while detached.
    pub next_key: nat,
}

impl<T> SlabState<T> {
    /// What holds of every slab: an attached store is well formed and has
    /// chunks of `CHUNK_SIZE` bytes; the cache is finite.
    pub open spec fn wf(self) -> bool {
        &&& self.entries.dom().finite()
        &&& self.rope matches Some(rope) ==> rope.wf() && rope.chunk_size == CHUNK_SIZE
    }

    /// Whether a value is cached under `key`.
    pub open spec fn cached(self, key: usize) -> bool {
        self.entries.contains_key(key)
    }

    /// Whether the cached entry for `key` can be used as it is: the slab is
    /// detached, or the entry's version is the one in the buffer.
    pub open spec fn fresh(self, key: usize) -> bool {
        match self.rope {
            Some(rope) => self.cached(key) && self.entries[key].ver == rope.version_of(key as int),
            None => true,
        }
    }

    /// The bytes that a reload of `key` hands to the decoder; empty where
    /// there is nothing to hand over.
    pub open spec fn reload_bytes(self, key: usize) -> Seq<u8> {
        match self.rope {
            Some(rope) => match rope.stored(key as int) {
                Some(bytes) => bytes,
                None => Seq::empty(),
            },
            None => Seq::empty(),
        }
    }

    /// The slab after a pull of `key`, and how the pull ended, where
    /// `decoded` is what the decoder makes of `reload_bytes(key)`.
    ///
    /// A fresh entry is used as it is. Otherwise the record's bytes are
    /// fetched and decoded, and the entry becomes the decoded value with
    /// the buffer's version. Where the record's chain is broken or the
    /// bytes do not decode, the pull fails with `InvalidData` and the cache
    /// stays as it was: a stale entry is not handed out.
    pub open spec fn pulled(self, key: usize, decoded: Option<T>) -> (
        SlabState<T>,
        Result<(), FsError>,
    ) {
        if self.fresh(key) {
            (self, Ok(()))
        } else {
            let rope = self.rope->0;
            match (rope.stored(key as int), decoded) {
                (Some(_), Some(val)) => (
                    SlabState {
                        entries: self.entries.insert(
                            key,
                            VEntry { ver: rope.version_of(key as int), val },
                        ),
                        ..self
                    },
                    Ok(()),
                ),
                _ => (self, Err(FsError::InvalidData)),
            }
        }
    }

    /// The slab after the value cached under `key` was pushed to the
    /// buffer, and the version it got there, where `encoded` is what the
    /// encoder makes of that value. A detached slab takes the value as
    /// pushed, with version 0.
    pub open spec fn pushed(self, key: usize, encoded: Option<Seq<u8>>) -> (
        SlabState<T>,
        Result<u32, FsError>,
    ) {
        match encoded {
            None => (self, Err(FsError::IOError)),
            Some(bytes) => match self.rope {
                None => (self, Ok(0u32)),
                Some(rope) => {
                    let (written, outcome) = rope.after_insert(key as int, bytes);
                    (SlabState { rope: Some(written), ..self }, outcome)
                },
            },
        }
    }

    /// The slab after a flush of `key`: the value is pushed and, where that
    /// went well, the cached version becomes the version in the buffer.
    pub open spec fn flushed(self, key: usize, encoded: Option<Seq<u8>>) -> (
        SlabState<T>,
        Result<(), FsError>,
    ) {
        let (after, outcome) = self.pushed(key, encoded);
        match outcome {
            Ok(ver) => (
                SlabState {
                    entries: after.entries.insert(key, VEntry { ver, val: self.entries[key].val }),
                    ..after
                },
                Ok(()),
            ),
            Err(e) => (after, Err(e)),
        }
    }

    /// The key that the next insertion takes: the lowest unused chunk from
    /// the store's cursor on, or the slab's own counter while detached.
    pub open spec fn vacant_key(self) -> Result<usize, FsError> {
        match self.rope {
            Some(rope) => match rope.first_free(rope.next_free as int) {
                Some(k) => Ok(k as usize),
                None => Err(FsError::OutOfBuffer),
            },
            None => if self.next_key < usize::MAX {
                Ok(self.next_key as usize)
            } else {
                Err(FsError::OutOfBuffer)
            },
        }
    }

    /// The slab after the key `key` was taken for an insertion: the cursor,
    /// or the counter, stands behind it.
    pub open spec fn claimed(self, key: usize) -> SlabState<T> {
        SlabState {
            rope: match self.rope {
                Some(rope) => Some(rope.with_cursor(key + 1)),
                None => None,
            },
            next_key: (key + 1) as nat,
            ..self
        }
    }

    /// The slab after `val` was inserted, and the key it got, where
    /// `encoded` is what the encoder makes of `val`. The value is cached
    /// under the vacant key with version 0 and then flushed. Where no key
    /// is left, nothing changes.
    pub open spec fn inserted(self, val: T, encoded: Option<Seq<u8>>) -> (
        SlabState<T>,
        Result<usize, FsError>,
    ) {
        match self.vacant_key() {
            Err(e) => (self, Err(e)),
            Ok(key) => {
                let held = SlabState {
                    entries: self.entries.insert(key, VEntry { ver: 0, val }),
                    ..self.claimed(key)
                };
                let (after, outcome) = held.flushed(key, encoded);
                match outcome {
                    Ok(_) => (after, Ok(key)),
                    Err(e) => (after, Err(e)),
                }
            },
        }
    }

    /// The slab after `key` was removed: gone from the cache, and its
    /// version in the buffer, if the slab is attached, set to 0.
    pub open spec fn removed(self, key: usize) -> SlabState<T> {
        SlabState {
            entries: self.entries.remove(key),
            rope: match self.rope {
                Some(rope) => Some(rope.after_remove(key as int)),
                None => None,
            },
            ..self
        }
    }

    /// Whether attaching has to flush the root: the buffer holds no root
    /// yet, and the cache does.
    pub open spec fn root_pending(self) -> bool {
        self.rope matches Some(rope) && rope.version_of(ROOT_KEY as int) == 0 && self.cached(
            ROOT_KEY,
        )
    }

    /// The slab after it was attached to the buffer `buf`, where `encoded`
    /// is what the encoder makes of the cached root. The store's cursor
    /// starts behind the root. A root that the cache holds and the buffer
    /// lacks is flushed.
    pub open spec fn attached(self, buf: Seq<u8>, encoded: Option<Seq<u8>>) -> (
        SlabState<T>,
        Result<(), FsError>,
    ) {
        let fixed = SlabState {
            rope: Some(
                RopeState {
                    chunks: chunks_of(buf, CHUNK_SIZE as int),
                    chunk_size: CHUNK_SIZE as nat,
                    next_free: 1,
                    slack: slack_of(buf, CHUNK_SIZE as int),
                },
            ),
            ..self
        };
        if fixed.root_pending() {
            fixed.flushed(ROOT_KEY, encoded)
        } else {
            (fixed, Ok(()))
        }
    }
}

} // verus!
