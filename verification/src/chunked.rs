//! Bounded random access to one contiguous byte buffer, seen as an array of
//! chunks of equal size.

use vstd::prelude::*;
use crate::word::{be_word, overlay, word_bytes};

verus! {

/// A byte buffer together with the size of the chunks it is cut into.
///
/// The adapter keeps no allocation state. All truncation at a chunk's edge
/// happens here, so that callers can step from chunk to chunk until their
/// data is used up.
pub struct Chunked {
    buf: Vec<u8>,
    chunk_size: usize,
}

/// Where byte `offset` of chunk `chunk` lies in a buffer of chunks of
/// `chunk_size` bytes.
pub open spec fn address(chunk_size: int, chunk: int, offset: int) -> int {
    chunk * chunk_size + offset
}

/// How many bytes a transfer of `wanted` bytes from `offset` on moves: it
/// stops at the chunk's edge.
pub open spec fn clipped(chunk_size: int, offset: int, wanted: int) -> int {
    if wanted <= chunk_size - offset {
        wanted
    } else {
        chunk_size - offset
    }
}

/// The product in an address is never negative.
pub proof fn lemma_address_base(chunk_size: int, chunk: int)
    requires
        0 <= chunk_size,
        0 <= chunk,
    ensures
        0 <= chunk * chunk_size,
{
    assert(0 <= chunk * chunk_size) by (nonlinear_arith)
        requires
            0 <= chunk_size,
            0 <= chunk,
    ;
}

impl Chunked {
    #[verifier::type_invariant]
    spec fn well_formed(self) -> bool {
        self.chunk_size > 0
    }

    /// The buffer's bytes.
    pub closed spec fn bytes(self) -> Seq<u8> {
        self.buf@
    }

    /// The size of one chunk, in bytes.
    pub closed spec fn chunk_len(self) -> nat {
        self.chunk_size as nat
    }

    /// The number of whole chunks in the buffer.
    pub open spec fn chunk_total(self) -> int {
        self.bytes().len() as int / self.chunk_len() as int
    }

    /// Wraps `buf` as chunks of `chunk_size` bytes each.
    pub fn new(buf: Vec<u8>, chunk_size: usize) -> (r: Self)
        requires
            chunk_size > 0,
        ensures
            r.bytes() == buf@,
            r.chunk_len() == chunk_size,
    {
        Chunked { buf, chunk_size }
    }

    /// Hands the buffer back.
    pub fn into_inner(self) -> (r: Vec<u8>)
        ensures
            r@ == self.bytes(),
    {
        self.buf
    }

    /// The size of one chunk, in bytes.
    pub fn chunk_size(&self) -> (r: usize)
        ensures
            r == self.chunk_len(),
            r > 0,
    {
        proof {
            use_type_invariant(self);
        }
        self.chunk_size
    }

    /// The number of whole chunks in the buffer.
    pub fn chunk_count(&self) -> (r: usize)
        ensures
            r == self.chunk_total(),
    {
        proof {
            use_type_invariant(self);
        }
        self.buf.len() / self.chunk_size
    }

    /// Reads word `index` of chunk `chunk`: four bytes, most significant
    /// first.
    pub fn read_u32(&self, chunk: usize, index: usize) -> (r: u32)
        requires
            address(self.chunk_len() as int, chunk as int, 4 * index) + 4 <= self.bytes().len(),
        ensures
            r == be_word(self.bytes(), address(self.chunk_len() as int, chunk as int, 4 * index)),
    {
        let len: usize = self.buf.len();
        proof {
            lemma_address_base(self.chunk_size as int, chunk as int);
        }
        let at: usize = chunk * self.chunk_size + 4 * index;
        let b0: u32 = self.buf[at] as u32;
        let b1: u32 = self.buf[at + 1] as u32;
        let b2: u32 = self.buf[at + 2] as u32;
        let b3: u32 = self.buf[at + 3] as u32;
        b0 * 0x100_0000 + b1 * 0x1_0000 + b2 * 0x100 + b3
    }

    /// Writes `val` as word `index` of chunk `chunk`, most significant byte
    /// first.
    pub fn write_u32(&mut self, chunk: usize, index: usize, val: u32)
        requires
            address(old(self).chunk_len() as int, chunk as int, 4 * index) + 4 <= old(self).bytes().len(),
        ensures
            final(self).chunk_len() == old(self).chunk_len(),
            final(self).bytes() == overlay(
                old(self).bytes(),
                address(old(self).chunk_len() as int, chunk as int, 4 * index),
                word_bytes(val),
            ),
    {
        let len: usize = self.buf.len();
        proof {
            use_type_invariant(&*self);
            lemma_address_base(self.chunk_size as int, chunk as int);
        }
        let at: usize = chunk * self.chunk_size + 4 * index;
        self.buf[at] = (val / 0x100_0000) as u8;
        self.buf[at + 1] = (val / 0x1_0000 % 0x100) as u8;
        self.buf[at + 2] = (val / 0x100 % 0x100) as u8;
        self.buf[at + 3] = (val % 0x100) as u8;
        assert(self.buf@ =~= overlay(old(self).buf@, at as int, word_bytes(val)));
    }

    /// Copies up to `byte_length` bytes out of chunk `chunk`, from
    /// `byte_offset` on, and stops at the chunk's edge.
    pub fn read_bytes(&self, chunk: usize, byte_offset: usize, byte_length: usize) -> (r: Vec<u8>)
        requires
            byte_offset < self.chunk_len(),
            address(self.chunk_len() as int, chunk as int, byte_offset as int) + clipped(
                self.chunk_len() as int,
                byte_offset as int,
                byte_length as int,
            ) <= self.bytes().len(),
        ensures
            r@ == self.bytes().subrange(
                address(self.chunk_len() as int, chunk as int, byte_offset as int),
                address(self.chunk_len() as int, chunk as int, byte_offset as int) + clipped(
                    self.chunk_len() as int,
                    byte_offset as int,
                    byte_length as int,
                ),
            ),
    {
        let len: usize = self.buf.len();
        proof {
            lemma_address_base(self.chunk_size as int, chunk as int);
        }
        let room: usize = self.chunk_size - byte_offset;
        let n: usize = if byte_length <= room { byte_length } else { room };
        let at: usize = chunk * self.chunk_size + byte_offset;
        let mut out: Vec<u8> = Vec::new();
        let mut i: usize = 0;
        while i < n
            invariant
                i <= n,
                at + n <= self.buf@.len() == len,
                out@ == self.buf@.subrange(at as int, at + i),
            decreases n - i,
        {
            out.push(self.buf[at + i]);
            i += 1;
            assert(out@ =~= self.buf@.subrange(at as int, at + i));
        }
        out
    }

    /// Copies bytes of chunk `chunk`, from `byte_offset` on, into the front
    /// of `out`: as many as `out` holds, but no further than the chunk's
    /// edge. Returns how many were copied.
    pub fn read_bytes_into(&self, chunk: usize, byte_offset: usize, out: &mut [u8]) -> (n: usize)
        requires
            byte_offset < self.chunk_len(),
            address(self.chunk_len() as int, chunk as int, byte_offset as int) + clipped(
                self.chunk_len() as int,
                byte_offset as int,
                old(out)@.len() as int,
            ) <= self.bytes().len(),
        ensures
            n == clipped(self.chunk_len() as int, byte_offset as int, old(out)@.len() as int),
            final(out)@ == overlay(
                old(out)@,
                0,
                self.bytes().subrange(
                    address(self.chunk_len() as int, chunk as int, byte_offset as int),
                    address(self.chunk_len() as int, chunk as int, byte_offset as int) + n,
                ),
            ),
    {
        let len: usize = self.buf.len();
        proof {
            lemma_address_base(self.chunk_size as int, chunk as int);
        }
        let room: usize = self.chunk_size - byte_offset;
        let n: usize = if out.len() <= room { out.len() } else { room };
        let at: usize = chunk * self.chunk_size + byte_offset;
        let mut i: usize = 0;
        while i < n
            invariant
                i <= n,
                n <= out@.len(),
                out@.len() == old(out)@.len(),
                at + n <= self.buf@.len() == len,
                out@ == overlay(old(out)@, 0, self.buf@.subrange(at as int, at + i)),
            decreases n - i,
        {
            out[i] = self.buf[at + i];
            i += 1;
            assert(out@ =~= overlay(old(out)@, 0, self.buf@.subrange(at as int, at + i)));
        }
        assert(out@ =~= overlay(old(out)@, 0, self.buf@.subrange(at as int, at + n)));
        n
    }

    /// Copies the front of `data` into chunk `chunk`, from `byte_offset` on:
    /// all of it, or as much as fits before the chunk's edge. Returns how
    /// many bytes were written.
    pub fn write_bytes(&mut self, chunk: usize, byte_offset: usize, data: &[u8]) -> (n: usize)
        requires
            byte_offset < old(self).chunk_len(),
            address(old(self).chunk_len() as int, chunk as int, byte_offset as int) + clipped(
                old(self).chunk_len() as int,
                byte_offset as int,
                data@.len() as int,
            ) <= old(self).bytes().len(),
        ensures
            n == clipped(old(self).chunk_len() as int, byte_offset as int, data@.len() as int),
            final(self).chunk_len() == old(self).chunk_len(),
            final(self).bytes() == overlay(
                old(self).bytes(),
                address(old(self).chunk_len() as int, chunk as int, byte_offset as int),
                data@.subrange(0, n as int),
            ),
    {
        let len: usize = self.buf.len();
        proof {
            use_type_invariant(&*self);
            lemma_address_base(self.chunk_size as int, chunk as int);
        }
        let room: usize = self.chunk_size - byte_offset;
        let n: usize = if data.len() <= room { data.len() } else { room };
        let at: usize = chunk * self.chunk_size + byte_offset;
        let mut i: usize = 0;
        while i < n
            invariant
                i <= n,
                n <= data@.len(),
                at + n <= self.buf@.len() == len,
                self.buf@.len() == old(self).buf@.len(),
                self.chunk_size == old(self).chunk_size,
                self.chunk_size > 0,
                self.buf@ == overlay(old(self).buf@, at as int, data@.subrange(0, i as int)),
            decreases n - i,
        {
            self.buf[at + i] = data[i];
            i += 1;
            assert(self.buf@ =~= overlay(old(self).buf@, at as int, data@.subrange(0, i as int)));
        }
        n
    }
}

} // verus!
