//! The rope store as a mathematical object: the chunks of the buffer, the
//! free cursor, and what each operation makes of them.
//!
//! A head chunk holds, as big-endian words, its version (word 0), the
//! length of the record's payload (word 1) and the index of the next chunk
//! (word 2); the payload starts at byte 12. A continuation chunk holds the
//! index of the next chunk (word 0) and payload from byte 4 on. A next
//! index of 0 or 1 means that no chunk follows.

use vstd::prelude::*;
use crate::error::FsError;
use crate::word::{be_word, overlay, word_bytes};

verus! {

/// The first byte of payload in a head chunk.
pub const HEAD_PAYLOAD: usize = 12;

/// The first byte of payload in a continuation chunk.
pub const CONT_PAYLOAD: usize = 4;

/// The next-chunk value that ends a chain. It differs from 0 so that a
/// chunk at the end of a chain is not taken for an unused one.
pub const END_OF_CHAIN: u32 = 1;

/// The state of a rope store.
pub struct RopeState {
    /// The buffer's chunks.
    pub chunks: Seq<Seq<u8>>,
    /// The size of every chunk, in bytes.
    pub chunk_size: nat,
    /// The free cursor: the scan for an unused chunk starts here.
    pub next_free: nat,
    /// The bytes of the buffer behind its last whole chunk. No operation
    /// reads or writes them.
    pub slack: Seq<u8>,
}

/// `front` put before `rest`, where there is a `rest`.
pub open spec fn glue(front: Seq<u8>, rest: Option<Seq<u8>>) -> Option<Seq<u8>> {
    match rest {
        Some(tail) => Some(front + tail),
        None => None,
    }
}

/// The smaller of two numbers.
pub open spec fn least(a: int, b: int) -> int {
    if a <= b {
        a
    } else {
        b
    }
}

impl RopeState {
    /// What holds of every store: a chunk has room for payload behind a
    /// head's three words, every chunk index fits a 32-bit word, all chunks
    /// have the chunk size, and the cursor never points at chunk 0.
    pub open spec fn wf(self) -> bool {
        &&& self.chunk_size > HEAD_PAYLOAD
        &&& self.chunks.len() <= u32::MAX
        &&& self.next_free >= 1
        &&& forall|k: int|
            0 <= k < self.chunks.len() ==> (#[trigger] self.chunks[k]).len() == self.chunk_size
    }

    /// Whether `k` is the index of a chunk of the buffer.
    pub open spec fn in_range(self, k: int) -> bool {
        0 <= k < self.chunks.len()
    }

    /// Word `i` of chunk `k`.
    pub open spec fn word(self, k: int, i: int) -> u32 {
        be_word(self.chunks[k], 4 * i)
    }

    /// The version stored at `key`: word 0 of that chunk; 0 where nothing
    /// is stored, which includes every index past the buffer.
    pub open spec fn version_of(self, key: int) -> u32 {
        if self.in_range(key) {
            self.word(key, 0)
        } else {
            0
        }
    }

    /// Whether something is stored at `key`.
    pub open spec fn contains(self, key: int) -> bool {
        self.version_of(key) != 0
    }

    /// The lowest index from `from` on whose chunk is unused, if there is
    /// one.
    pub open spec fn first_free(self, from: int) -> Option<int>
        decreases self.chunks.len() - from,
    {
        if from >= self.chunks.len() {
            None
        } else if from >= 0 && self.word(from, 0) == 0 {
            Some(from)
        } else {
            self.first_free(from + 1)
        }
    }

    /// The lowest index from `from` on, other than `skip`, whose chunk is
    /// unused.
    pub open spec fn first_free_except(self, from: int, skip: int) -> Option<int> {
        match self.first_free(from) {
            Some(k) => if k == skip {
                self.first_free(k + 1)
            } else {
                Some(k)
            },
            None => None,
        }
    }

    /// How many payload bytes a chunk carries: a head has three words in
    /// front of them, a continuation has one.
    pub open spec fn room(self, head: bool) -> int {
        if head {
            self.chunk_size - HEAD_PAYLOAD
        } else {
            self.chunk_size - CONT_PAYLOAD
        }
    }

    /// The first `remaining` payload bytes of the chain that goes on at
    /// chunk `cur`. `None` where a link leads out of the buffer before that
    /// many bytes were met.
    pub open spec fn chain_read(self, cur: int, head: bool, remaining: nat) -> Option<Seq<u8>>
        decreases remaining,
    {
        if remaining == 0 {
            Some(Seq::empty())
        } else if !self.in_range(cur) || self.chunk_size <= HEAD_PAYLOAD {
            None
        } else {
            let start = self.chunk_size - self.room(head);
            let n = least(remaining as int, self.room(head));
            let part = self.chunks[cur].subrange(start, start + n);
            if n == remaining {
                Some(part)
            } else {
                let next = self.word(
                    cur,
                    if head {
                        2
                    } else {
                        0
                    },
                );
                glue(part, self.chain_read(next as int, false, (remaining - n) as nat))
            }
        }
    }

    /// The payload of the record at `key`: as many bytes as its length word
    /// says, gathered along its chain.
    pub open spec fn stored(self, key: int) -> Option<Seq<u8>> {
        if self.in_range(key) {
            self.chain_read(key, true, self.word(key, 1) as nat)
        } else {
            None
        }
    }

    /// The store with `val` written as word `i` of chunk `k`.
    pub open spec fn with_word(self, k: int, i: int, val: u32) -> RopeState {
        RopeState {
            chunks: self.chunks.update(k, overlay(self.chunks[k], 4 * i, word_bytes(val))),
            ..self
        }
    }

    /// The store with `data` written into chunk `k` from byte `at` on.
    pub open spec fn with_bytes(self, k: int, at: int, data: Seq<u8>) -> RopeState {
        RopeState { chunks: self.chunks.update(k, overlay(self.chunks[k], at, data)), ..self }
    }

    /// The store with its cursor at `next_free`.
    pub open spec fn with_cursor(self, next_free: int) -> RopeState {
        RopeState { next_free: next_free as nat, ..self }
    }

    /// The store with `next` as word `i` of chunk `k`, which held `before`.
    /// The word is written only where the value changes.
    pub open spec fn with_link(self, k: int, i: int, before: u32, next: u32) -> RopeState {
        if next != before {
            self.with_word(k, i, next)
        } else {
            self
        }
    }

    /// The store after `data` was written as a chain of continuation chunks
    /// that starts at chunk `cur`, for the record at `skip`; and whether
    /// the chunks sufficed.
    ///
    /// At each chunk: its payload is filled from byte 4 on. Where data is
    /// left, the chain goes on at the chunk that the old next index names,
    /// if that is more than 1, and else at the lowest unused chunk from the
    /// cursor on other than `skip`, behind which the cursor then moves. The
    /// last chunk gets 1 as its next index. Where a chunk of the chain lies
    /// outside the buffer, or no unused chunk is left, the write stops.
    pub open spec fn chain_write(self, skip: int, cur: int, data: Seq<u8>) -> (RopeState, bool)
        decreases data.len(),
    {
        if data.len() == 0 {
            (self, true)
        } else if !self.in_range(cur) || self.chunk_size <= HEAD_PAYLOAD {
            (self, false)
        } else {
            let before = self.word(cur, 0);
            let n = least(data.len() as int, self.room(false));
            let filled = self.with_bytes(cur, CONT_PAYLOAD as int, data.subrange(0, n));
            let rest = data.subrange(n, data.len() as int);
            if n == data.len() {
                (filled.with_link(cur, 0, before, END_OF_CHAIN), true)
            } else if before > 1 {
                filled.chain_write(skip, before as int, rest)
            } else {
                match filled.first_free_except(filled.next_free as int, skip) {
                    Some(k) => filled.with_cursor(k + 1).with_link(
                        cur,
                        0,
                        before,
                        k as u32,
                    ).chain_write(skip, k, rest),
                    None => (filled, false),
                }
            }
        }
    }

    /// The chunks that `chain_write` writes to, in the order in which it
    /// comes to them.
    pub open spec fn chain_path(self, skip: int, cur: int, data: Seq<u8>) -> Seq<int>
        decreases data.len(),
    {
        if data.len() == 0 || !self.in_range(cur) || self.chunk_size <= HEAD_PAYLOAD {
            Seq::empty()
        } else {
            let before = self.word(cur, 0);
            let n = least(data.len() as int, self.room(false));
            let filled = self.with_bytes(cur, CONT_PAYLOAD as int, data.subrange(0, n));
            let rest = data.subrange(n, data.len() as int);
            if n == data.len() {
                seq![cur]
            } else if before > 1 {
                seq![cur] + filled.chain_path(skip, before as int, rest)
            } else {
                match filled.first_free_except(filled.next_free as int, skip) {
                    Some(k) => seq![cur] + filled.with_cursor(k + 1).with_link(
                        cur,
                        0,
                        before,
                        k as u32,
                    ).chain_path(skip, k, rest),
                    None => seq![cur],
                }
            }
        }
    }

    /// The continuation chunks that `insert_at(key, data)` writes to, in
    /// order: none where the payload fits into the head.
    pub open spec fn insert_path(self, key: int, data: Seq<u8>) -> Seq<int> {
        if !self.in_range(key) || self.word(key, 0) == u32::MAX || data.len() > u32::MAX
            || data.len() <= self.room(true) {
            Seq::empty()
        } else {
            let n = self.room(true);
            let filled = self.with_bytes(key, HEAD_PAYLOAD as int, data.subrange(0, n));
            let rest = data.subrange(n, data.len() as int);
            let before = self.word(key, 2);
            if before > 1 {
                filled.chain_path(key, before as int, rest)
            } else {
                match filled.first_free_except(filled.next_free as int, key) {
                    Some(k) => filled.with_cursor(k + 1).chain_path(key, k, rest),
                    None => Seq::empty(),
                }
            }
        }
    }

    /// Whether `insert_at(key, data)` writes every chunk once: the
    /// continuation chunks it comes to differ from each other and from
    /// `key`. This holds of every record whose old chain, as far as it is
    /// used again, neither runs in a circle nor meets `key` nor ends in an
    /// unwritten chunk.
    pub open spec fn writes_apart(self, key: int, data: Seq<u8>) -> bool {
        &&& self.insert_path(key, data).no_duplicates()
        &&& !self.insert_path(key, data).contains(key)
    }

    /// Whether `links` are the continuation chunks that the head at `key`
    /// is linked to, in order: the head's next index names the first of
    /// them, each names the one behind it, and the last holds the
    /// end-of-chain mark. All of them are chunks of the buffer with an index
    /// above 1, none occurs twice, and none is `key`. A head whose next
    /// index names no chunk is linked to none.
    pub open spec fn linked(self, key: int, links: Seq<int>) -> bool {
        &&& self.in_range(key)
        &&& links.no_duplicates()
        &&& !links.contains(key)
        &&& forall|i: int|
            0 <= i < links.len() ==> self.in_range(#[trigger] links[i]) && links[i] > 1
        &&& if links.len() == 0 {
            self.word(key, 2) <= 1
        } else {
            &&& self.word(key, 2) == links[0]
            &&& forall|i: int|
                0 <= i < links.len() - 1 ==> self.word(#[trigger] links[i], 0) == links[i + 1]
            &&& self.word(links.last(), 0) == END_OF_CHAIN
        }
    }

    /// Whether the head at `key` is soundly linked: to no chunk, or to a
    /// chain of chunks as the store writes them. This holds of every chunk
    /// that was never written, and a write that succeeds keeps it of its
    /// key.
    pub open spec fn sound(self, key: int) -> bool {
        exists|links: Seq<int>| self.linked(key, links)
    }

    /// The store after the tail `data` of the record at `skip` was written
    /// to continuation chunks, and the index of the first of them, if the
    /// chunks sufficed. The first chunk is `maybe_at`, where that is more
    /// than 1, and else the lowest unused chunk from the cursor on other than
    /// `skip`.
    pub open spec fn cont_write(self, skip: int, maybe_at: u32, data: Seq<u8>) -> (
        RopeState,
        Option<int>,
    ) {
        if maybe_at > 1 {
            let (state, ok) = self.chain_write(skip, maybe_at as int, data);
            (
                state,
                if ok {
                    Some(maybe_at as int)
                } else {
                    None
                },
            )
        } else {
            match self.first_free_except(self.next_free as int, skip) {
                Some(k) => {
                    let (state, ok) = self.with_cursor(k + 1).chain_write(skip, k, data);
                    (
                        state,
                        if ok {
                            Some(k)
                        } else {
                            None
                        },
                    )
                },
                None => (self, None),
            }
        }
    }

    /// The store after `insert_at(key, data)`, and what the call returns.
    ///
    /// The head's payload is written first, then the continuation chunks,
    /// then the head's next index (where it changes), its length word, and
    /// last of all its version: one more than it was. Where the payload
    /// fits into the head, the head's next index stays.
    pub open spec fn after_insert(self, key: int, data: Seq<u8>) -> (
        RopeState,
        Result<u32, FsError>,
    ) {
        if !self.in_range(key) {
            (self, Err(FsError::OutOfBuffer))
        } else if self.word(key, 0) == u32::MAX || data.len() > u32::MAX {
            (self, Err(FsError::IOError))
        } else {
            let version = (self.word(key, 0) + 1) as u32;
            let before = self.word(key, 2);
            let n = least(data.len() as int, self.room(true));
            let filled = self.with_bytes(key, HEAD_PAYLOAD as int, data.subrange(0, n));
            if n == data.len() {
                (filled.sealed(key, before, before, data.len() as u32, version), Ok(version))
            } else {
                let (chained, first) = filled.cont_write(
                    key,
                    before,
                    data.subrange(n, data.len() as int),
                );
                match first {
                    Some(k) => (
                        chained.sealed(key, before, k as u32, data.len() as u32, version),
                        Ok(version),
                    ),
                    None => (chained, Err(FsError::OutOfBuffer)),
                }
            }
        }
    }

    /// The store with the head words of `key` set: the next index (where
    /// it changes), then the length, then the version.
    pub open spec fn sealed(self, key: int, before: u32, next: u32, length: u32, version: u32)
        -> RopeState {
        self.with_link(key, 2, before, next).with_word(key, 1, length).with_word(key, 0, version)
    }

    /// The store after `key` was removed: its version is 0, everything else
    /// stays, also the chunks of its chain.
    pub open spec fn after_remove(self, key: int) -> RopeState {
        if self.in_range(key) {
            self.with_word(key, 0, 0)
        } else {
            self
        }
    }
}

} // verus!
