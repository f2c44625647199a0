//! The rope store: records of any length, each a chain of chunks that
//! starts at its key, with a version counter per key and a cursor for
//! finding unused chunks.

use vstd::prelude::*;
use vstd::slice::slice_subrange;
use crate::chunked::Chunked;
use crate::error::FsError;
use crate::layout::{
    chunks_of,
    lemma_chunk_span,
    lemma_chunks_shape,
    lemma_patch_in_chunk,
    lemma_range_in_chunk,
    lemma_word_in_chunk,
    slack_of,
};
use crate::rope_laws::{lemma_insert_keeps, lemma_insert_then_get, lemma_write_keeps_sound};
use crate::rope_model::{glue, least, RopeState, CONT_PAYLOAD, END_OF_CHAIN, HEAD_PAYLOAD};
use crate::rope_steps::lemma_first_free;
use crate::word::word_bytes;

verus! {

/// An index as the model counts it.
pub open spec fn found(r: Option<usize>) -> Option<int> {
    match r {
        Some(k) => Some(k as int),
        None => None,
    }
}

/// A rope store over a chunked buffer.
///
/// Its view is the [`RopeState`] that the buffer and the cursor spell. Every
/// method asks for a well-formed view and keeps it so.
pub struct Ropes {
    storage: Chunked,
    next_free: usize,
}

impl View for Ropes {
    type V = RopeState;

    closed spec fn view(&self) -> RopeState {
        RopeState {
            chunks: chunks_of(self.storage.bytes(), self.storage.chunk_len() as int),
            chunk_size: self.storage.chunk_len(),
            next_free: self.next_free as nat,
            slack: slack_of(self.storage.bytes(), self.storage.chunk_len() as int),
        }
    }
}

impl Ropes {
    /// How the view's shape shows in the buffer.
    proof fn lemma_view_shape(self)
        requires
            self.storage.chunk_len() > 0,
        ensures
            self@.chunks.len() == self.storage.chunk_total(),
            self@.chunk_size == self.storage.chunk_len() as int,
            forall|k: int|
                0 <= k < self@.chunks.len() ==> (#[trigger] self@.chunks[k]).len()
                    == self@.chunk_size,
    {
        lemma_chunks_shape(self.storage.bytes(), self.storage.chunk_len() as int);
    }

    /// A store over `storage`, with the cursor behind the root chunk.
    pub fn new(storage: Chunked) -> (r: Self)
        requires
            storage.chunk_len() > HEAD_PAYLOAD,
            storage.chunk_total() <= u32::MAX,
        ensures
            r@.wf(),
            r@.chunks == chunks_of(storage.bytes(), storage.chunk_len() as int),
            r@.slack == slack_of(storage.bytes(), storage.chunk_len() as int),
            r@.chunk_size == storage.chunk_len(),
            r@.next_free == 1,
    {
        let r = Ropes { storage, next_free: 1 };
        proof {
            r.lemma_view_shape();
        }
        r
    }

    /// Gives the buffer back.
    pub fn into_storage(self) -> (r: Chunked)
        requires
            self@.wf(),
        ensures
            chunks_of(r.bytes(), r.chunk_len() as int) == self@.chunks,
            slack_of(r.bytes(), r.chunk_len() as int) == self@.slack,
            r.chunk_len() == self@.chunk_size,
            r.chunk_total() == self@.chunks.len(),
    {
        proof {
            self.lemma_view_shape();
        }
        self.storage
    }

    /// The number of chunks in the buffer.
    pub fn chunk_count(&self) -> (r: usize)
        requires
            self@.wf(),
        ensures
            r == self@.chunks.len(),
    {
        proof {
            self.lemma_view_shape();
        }
        self.storage.chunk_count()
    }

    /// Reads word `index` (0, 1 or 2) of chunk `chunk`.
    fn word(&self, chunk: usize, index: usize) -> (r: u32)
        requires
            self@.wf(),
            self@.in_range(chunk as int),
            index <= 2,
        ensures
            r == self@.word(chunk as int, index as int),
    {
        proof {
            self.lemma_view_shape();
            lemma_chunk_span(
                self.storage.bytes().len() as int,
                self.storage.chunk_len() as int,
                chunk as int,
            );
            lemma_word_in_chunk(
                self.storage.bytes(),
                self.storage.chunk_len() as int,
                chunk as int,
                4 * index,
            );
        }
        self.storage.read_u32(chunk, index)
    }

    /// Writes `val` as word `index` (0, 1 or 2) of chunk `chunk`.
    fn put_word(&mut self, chunk: usize, index: usize, val: u32)
        requires
            old(self)@.wf(),
            old(self)@.in_range(chunk as int),
            index <= 2,
        ensures
            final(self)@.wf(),
            final(self)@ == old(self)@.with_word(chunk as int, index as int, val),
    {
        proof {
            self.lemma_view_shape();
            lemma_chunk_span(
                self.storage.bytes().len() as int,
                self.storage.chunk_len() as int,
                chunk as int,
            );
            lemma_patch_in_chunk(
                self.storage.bytes(),
                self.storage.chunk_len() as int,
                chunk as int,
                4 * index,
                word_bytes(val),
            );
        }
        self.storage.write_u32(chunk, index, val);
        proof {
            self.lemma_view_shape();
        }
    }

    /// Reads up to `wanted` payload bytes of chunk `chunk`, from byte
    /// `start` (4 or 12) on.
    fn read_payload(&self, chunk: usize, start: usize, wanted: usize) -> (r: Vec<u8>)
        requires
            self@.wf(),
            self@.in_range(chunk as int),
            start == HEAD_PAYLOAD || start == CONT_PAYLOAD,
        ensures
            r@ == self@.chunks[chunk as int].subrange(
                start as int,
                start + least(wanted as int, self@.chunk_size - start),
            ),
            r@.len() == least(wanted as int, self@.chunk_size - start),
    {
        proof {
            self.lemma_view_shape();
            lemma_chunk_span(
                self.storage.bytes().len() as int,
                self.storage.chunk_len() as int,
                chunk as int,
            );
            lemma_range_in_chunk(
                self.storage.bytes(),
                self.storage.chunk_len() as int,
                chunk as int,
                start as int,
                least(wanted as int, self.storage.chunk_len() - start),
            );
        }
        self.storage.read_bytes(chunk, start, wanted)
    }

    /// Writes the front of `data` as payload of chunk `chunk`, from byte
    /// `start` (4 or 12) on, up to the chunk's edge. Returns how many bytes
    /// were written.
    fn write_payload(&mut self, chunk: usize, start: usize, data: &[u8]) -> (n: usize)
        requires
            old(self)@.wf(),
            old(self)@.in_range(chunk as int),
            start == HEAD_PAYLOAD || start == CONT_PAYLOAD,
        ensures
            final(self)@.wf(),
            n == least(data@.len() as int, old(self)@.chunk_size - start),
            final(self)@ == old(self)@.with_bytes(
                chunk as int,
                start as int,
                data@.subrange(0, n as int),
            ),
    {
        proof {
            self.lemma_view_shape();
            let n = least(data@.len() as int, self.storage.chunk_len() - start);
            lemma_chunk_span(
                self.storage.bytes().len() as int,
                self.storage.chunk_len() as int,
                chunk as int,
            );
            lemma_patch_in_chunk(
                self.storage.bytes(),
                self.storage.chunk_len() as int,
                chunk as int,
                start as int,
                data@.subrange(0, n),
            );
        }
        let n: usize = self.storage.write_bytes(chunk, start, data);
        proof {
            self.lemma_view_shape();
        }
        n
    }

    /// The version stored at `key`: 0 where nothing is stored.
    pub fn ver_peek(&self, key: usize) -> (r: u32)
        requires
            self@.wf(),
        ensures
            r == self@.version_of(key as int),
    {
        if key < self.chunk_count() {
            self.word(key, 0)
        } else {
            0
        }
    }

    /// Whether something is stored at `key`.
    pub fn contains_key(&self, key: usize) -> (r: bool)
        requires
            self@.wf(),
        ensures
            r == self@.contains(key as int),
    {
        self.ver_peek(key) != 0
    }

    /// The lowest unused chunk from `from` on.
    fn scan(&self, from: usize) -> (r: Option<usize>)
        requires
            self@.wf(),
        ensures
            found(r) == self@.first_free(from as int),
            r matches Some(k) ==> from <= k < self@.chunks.len(),
    {
        let count: usize = self.chunk_count();
        let mut k: usize = from;
        while k < count
            invariant
                self@.wf(),
                count == self@.chunks.len(),
                from <= k,
                self@.first_free(k as int) == self@.first_free(from as int),
            decreases count - k,
        {
            if self.word(k, 0) == 0 {
                return Some(k);
            }
            k += 1;
        }
        None
    }

    /// The lowest unused chunk from `from` on, other than `skip`.
    fn scan_except(&self, from: usize, skip: usize) -> (r: Option<usize>)
        requires
            self@.wf(),
        ensures
            found(r) == self@.first_free_except(from as int, skip as int),
            r matches Some(k) ==> from <= k < self@.chunks.len(),
    {
        match self.scan(from) {
            Some(k) => {
                if k == skip {
                    self.scan(k + 1)
                } else {
                    Some(k)
                }
            },
            None => None,
        }
    }

    /// The key that the next `allocate` returns: the lowest unused chunk
    /// from the cursor on. The cursor stays. Fails where no chunk is left.
    pub fn alloc_peek(&self) -> (r: Result<usize, FsError>)
        requires
            self@.wf(),
        ensures
            match r {
                Ok(k) => {
                    &&& self@.first_free(self@.next_free as int) == Some(k as int)
                    &&& self@.next_free <= k < self@.chunks.len()
                    &&& !self@.contains(k as int)
                    &&& forall|j: int| self@.next_free <= j < k ==> #[trigger] self@.contains(j)
                },
                Err(e) => {
                    &&& e == FsError::OutOfBuffer
                    &&& self@.first_free(self@.next_free as int) is None
                    &&& forall|j: int|
                        self@.next_free <= j < self@.chunks.len() ==> #[trigger] self@.contains(j)
                },
            },
    {
        proof {
            lemma_first_free(self@, self@.next_free as int);
        }
        match self.scan(self.next_free) {
            Some(k) => Ok(k),
            None => Err(FsError::OutOfBuffer),
        }
    }

    /// Picks the lowest unused chunk from the cursor on and moves the
    /// cursor behind it. Nothing is written: the chunk is claimed by the
    /// first record that is stored in it. Fails, and changes nothing, where
    /// no chunk is left.
    pub fn allocate(&mut self) -> (r: Result<usize, FsError>)
        requires
            old(self)@.wf(),
        ensures
            final(self)@.wf(),
            match r {
                Ok(k) => {
                    &&& old(self)@.first_free(old(self)@.next_free as int) == Some(k as int)
                    &&& final(self)@ == old(self)@.with_cursor(k + 1)
                    &&& old(self)@.next_free <= k < old(self)@.chunks.len()
                    &&& !old(self)@.contains(k as int)
                    &&& forall|j: int|
                        old(self)@.next_free <= j < k ==> #[trigger] old(self)@.contains(j)
                },
                Err(e) => {
                    &&& e == FsError::OutOfBuffer
                    &&& old(self)@.first_free(old(self)@.next_free as int) is None
                    &&& final(self)@ == old(self)@
                    &&& forall|j: int|
                        old(self)@.next_free <= j < old(self)@.chunks.len() ==> #[trigger] old(self)@
                            .contains(j)
                },
            },
    {
        proof {
            lemma_first_free(self@, self@.next_free as int);
        }
        match self.scan(self.next_free) {
            Some(k) => {
                self.next_free = k + 1;
                Ok(k)
            },
            None => Err(FsError::OutOfBuffer),
        }
    }

    /// Picks the lowest unused chunk from the cursor on, other than `skip`,
    /// and moves the cursor behind it.
    fn allocate_except(&mut self, skip: usize) -> (r: Option<usize>)
        requires
            old(self)@.wf(),
        ensures
            final(self)@.wf(),
            found(r) == old(self)@.first_free_except(old(self)@.next_free as int, skip as int),
            match r {
                Some(k) => final(self)@ == old(self)@.with_cursor(k + 1) && k
                    < old(self)@.chunks.len(),
                None => final(self)@ == old(self)@,
            },
    {
        match self.scan_except(self.next_free, skip) {
            Some(k) => {
                self.next_free = k + 1;
                Some(k)
            },
            None => None,
        }
    }

    /// Stores `data` under a key of the store's choosing: the chunk that
    /// `allocate` picks. Returns the key and the record's version.
    pub fn insert(&mut self, data: &[u8]) -> (r: Result<(usize, u32), FsError>)
        requires
            old(self)@.wf(),
        ensures
            final(self)@.wf(),
            match old(self)@.first_free(old(self)@.next_free as int) {
                Some(k) => {
                    let (state, outcome) = old(self)@.with_cursor(k + 1).after_insert(k, data@);
                    &&& final(self)@ == state
                    &&& match r {
                        Ok((key, version)) => key == k && outcome == Ok::<u32, FsError>(version),
                        Err(e) => outcome == Err::<u32, FsError>(e),
                    }
                },
                None => r == Err::<(usize, u32), FsError>(FsError::OutOfBuffer) && final(self)@
                    == old(self)@,
            },
            r matches Ok((key, version)) ==> {
                &&& !old(self)@.contains(key as int)
                &&& version == 1
                &&& final(self)@.version_of(key as int) == 1
                &&& old(self)@.sound(key as int) ==> final(self)@.stored(key as int) == Some(
                    data@,
                ) && final(self)@.sound(key as int)
            },
    {
        proof {
            if old(self)@.first_free(old(self)@.next_free as int) is Some {
                let k = old(self)@.first_free(old(self)@.next_free as int)->0;
                if old(self)@.sound(k) {
                    let links = choose|links: Seq<int>| old(self)@.linked(k, links);
                    assert(old(self)@.with_cursor(k + 1).linked(k, links));
                }
            }
        }
        match self.allocate() {
            Ok(key) => match self.insert_at(key, data) {
                Ok(version) => Ok((key, version)),
                Err(e) => Err(e),
            },
            Err(e) => Err(e),
        }
    }

    /// Stores `data` as the record at `key`, over whatever was there, and
    /// returns the record's new version: one more than the old.
    ///
    /// The payload goes into the head from byte 12 on and, where it is
    /// longer, on into continuation chunks: those of the record's old
    /// chain as far as they reach, then unused ones. The head's words are
    /// written last, the version last of all.
    ///
    /// Fails with `OutOfBuffer` where `key`, or a chunk that the chain
    /// needs, lies past the buffer; with `IOError`, and without writing,
    /// where the version counter is at its maximum or the payload's length
    /// does not fit the length word.
    pub fn insert_at(&mut self, key: usize, data: &[u8]) -> (r: Result<u32, FsError>)
        requires
            old(self)@.wf(),
        ensures
            final(self)@.wf(),
            (final(self)@, r) == old(self)@.after_insert(key as int, data@),
            final(self)@.chunks.len() == old(self)@.chunks.len(),
            final(self)@.chunk_size == old(self)@.chunk_size,
            final(self)@.next_free >= old(self)@.next_free,
            forall|k: int| old(self)@.contains(k) ==> #[trigger] final(self)@.contains(k),
            match r {
                Ok(version) => {
                    &&& version == old(self)@.version_of(key as int) + 1
                    &&& final(self)@.version_of(key as int) == version
                    &&& final(self)@.word(key as int, 1) == data@.len()
                    &&& old(self)@.writes_apart(key as int, data@) ==> final(self)@.stored(
                        key as int,
                    ) == Some(data@)
                    &&& old(self)@.sound(key as int) ==> final(self)@.stored(key as int) == Some(
                        data@,
                    ) && final(self)@.sound(key as int)
                },
                Err(e) => {
                    &&& e == FsError::IOError <==> old(self)@.in_range(key as int) && (old(self)@
                        .version_of(key as int) == u32::MAX || data@.len() > u32::MAX)
                    &&& e == FsError::OutOfBuffer || e == FsError::IOError
                    &&& !old(self)@.in_range(key as int) || e == FsError::IOError ==> final(self)@
                        == old(self)@
                },
            },
    {
        proof {
            lemma_insert_keeps(old(self)@, key as int, data@);
            if old(self)@.after_insert(key as int, data@).1 is Ok {
                if old(self)@.writes_apart(key as int, data@) {
                    lemma_insert_then_get(old(self)@, key as int, data@);
                }
                if old(self)@.sound(key as int) {
                    lemma_write_keeps_sound(old(self)@, key as int, data@);
                }
            }
        }
        if key >= self.chunk_count() {
            return Err(FsError::OutOfBuffer);
        }
        let version: u32 = self.word(key, 0);
        if version == u32::MAX || data.len() > u32::MAX as usize {
            return Err(FsError::IOError);
        }
        let before: u32 = self.word(key, 2);
        let n: usize = self.write_payload(key, HEAD_PAYLOAD, data);
        let next: u32 = if n < data.len() {
            match self.insert_cont(key, before, slice_subrange(data, n, data.len())) {
                Ok(first) => first as u32,
                Err(e) => {
                    return Err(e);
                },
            }
        } else {
            before
        };
        if next != before {
            self.put_word(key, 2, next);
        }
        self.put_word(key, 1, data.len() as u32);
        self.put_word(key, 0, version + 1);
        Ok(version + 1)
    }

    /// Writes the tail `data` of the record at `key` to continuation
    /// chunks, from chunk `maybe_at` on where that is more than 1, else
    /// from a newly picked chunk on. Returns the first chunk of the tail.
    fn insert_cont(&mut self, key: usize, maybe_at: u32, data: &[u8]) -> (r: Result<
        usize,
        FsError,
    >)
        requires
            old(self)@.wf(),
            data@.len() > 0,
        ensures
            final(self)@.wf(),
            final(self)@ == old(self)@.cont_write(key as int, maybe_at, data@).0,
            final(self)@.chunks.len() == old(self)@.chunks.len(),
            match r {
                Ok(first) => old(self)@.cont_write(key as int, maybe_at, data@).1 == Some(
                    first as int,
                ) && first <= u32::MAX,
                Err(e) => e == FsError::OutOfBuffer && old(self)@.cont_write(
                    key as int,
                    maybe_at,
                    data@,
                ).1 is None,
            },
    {
        let first: usize = if maybe_at > 1 {
            maybe_at as usize
        } else {
            match self.allocate_except(key) {
                Some(k) => k,
                None => {
                    return Err(FsError::OutOfBuffer);
                },
            }
        };
        let ghost start = self@;
        let count: usize = self.chunk_count();
        let total: usize = data.len();
        let mut offset: usize = 0;
        let mut cur: usize = first;
        let ghost goal = old(self)@.cont_write(key as int, maybe_at, data@);
        proof {
            assert(data@.subrange(0, total as int) =~= data@);
            assert(goal.0 == start.chain_write(key as int, first as int, data@).0);
            assert(goal.1 == if start.chain_write(key as int, first as int, data@).1 {
                Some(first as int)
            } else {
                None
            });
        }
        while offset < total
            invariant
                self@.wf(),
                goal == old(self)@.cont_write(key as int, maybe_at, data@),
                goal.0 == start.chain_write(key as int, first as int, data@).0,
                goal.1 == if start.chain_write(key as int, first as int, data@).1 {
                    Some(first as int)
                } else {
                    None
                },
                start.chunks.len() == old(self)@.chunks.len(),
                count == self@.chunks.len(),
                total == data@.len(),
                offset <= total,
                first <= u32::MAX,
                self@.chunks.len() == start.chunks.len(),
                self@.chain_write(key as int, cur as int, data@.subrange(offset as int, total as int))
                    == start.chain_write(key as int, first as int, data@),
            decreases total - offset,
        {
            let ghost rest = data@.subrange(offset as int, total as int);
            let ghost entry = self@;
            if cur >= count {
                proof {
                    assert(entry.chain_write(key as int, cur as int, rest) == (entry, false));
                }
                return Err(FsError::OutOfBuffer);
            }
            let before: u32 = self.word(cur, 0);
            let n: usize = self.write_payload(cur, CONT_PAYLOAD, slice_subrange(data, offset, total));
            proof {
                assert(rest.subrange(n as int, rest.len() as int) =~= data@.subrange(
                    offset + n,
                    total as int,
                ));
            }
            offset = offset + n;
            let next: u32 = if offset < total {
                if before > 1 {
                    before
                } else {
                    match self.allocate_except(key) {
                        Some(k) => k as u32,
                        None => {
                            proof {
                                assert(entry.chain_write(key as int, cur as int, rest) == (
                                    self@,
                                    false,
                                ));
                            }
                            return Err(FsError::OutOfBuffer);
                        },
                    }
                }
            } else {
                END_OF_CHAIN
            };
            if next != before {
                self.put_word(cur, 0, next);
            }
            cur = next as usize;
        }
        Ok(first)
    }

    /// Removes the record at `key`: its version becomes 0. The chunks of
    /// its chain are left as they are.
    pub fn remove(&mut self, key: usize)
        requires
            old(self)@.wf(),
        ensures
            final(self)@.wf(),
            final(self)@ == old(self)@.after_remove(key as int),
    {
        if key < self.chunk_count() {
            self.put_word(key, 0, 0);
        }
    }

    /// The payload of the record at `key`, gathered along its chain: from
    /// byte 12 of the head, from byte 4 of every further chunk, until as
    /// many bytes are met as the head's length word says. Fails where a
    /// link of the chain leaves the buffer.
    pub fn get(&self, key: usize) -> (r: Result<Vec<u8>, FsError>)
        requires
            self@.wf(),
        ensures
            match r {
                Ok(bytes) => self@.stored(key as int) == Some(bytes@),
                Err(e) => e == FsError::InvalidData && self@.stored(key as int) is None,
            },
    {
        let count: usize = self.chunk_count();
        if key >= count {
            return Err(FsError::InvalidData);
        }
        let total: usize = self.word(key, 1) as usize;
        let mut out: Vec<u8> = Vec::new();
        let mut remaining: usize = total;
        let mut cur: usize = key;
        let mut head: bool = true;
        proof {
            assert(Seq::<u8>::empty() + self@.stored(key as int)->0 =~= self@.stored(
                key as int,
            )->0);
        }
        while remaining > 0
            invariant
                self@.wf(),
                count == self@.chunks.len(),
                self@.in_range(key as int),
                glue(out@, self@.chain_read(cur as int, head, remaining as nat)) == self@.stored(
                    key as int,
                ),
            decreases remaining,
        {
            if cur >= count {
                return Err(FsError::InvalidData);
            }
            let start: usize = if head { HEAD_PAYLOAD } else { CONT_PAYLOAD };
            let ghost before = out@;
            let mut part: Vec<u8> = self.read_payload(cur, start, remaining);
            let n: usize = part.len();
            let ghost piece = part@;
            out.append(&mut part);
            if n < remaining {
                let next: u32 = self.word(cur, if head { 2 } else { 0 });
                proof {
                    let rest = self@.chain_read(next as int, false, (remaining - n) as nat);
                    match rest {
                        Some(tail) => {
                            assert((before + piece) + tail =~= before + (piece + tail));
                        },
                        None => {},
                    }
                }
                cur = next as usize;
                head = false;
            } else {
                proof {
                    assert((before + piece) + Seq::<u8>::empty() =~= before + piece);
                }
            }
            remaining = remaining - n;
        }
        proof {
            assert(out@ + Seq::<u8>::empty() =~= out@);
        }
        Ok(out)
    }
}

} // verus!
