//! The chunk view of a flat buffer, and how reads and patches of the buffer
//! show in that view.

use vstd::prelude::*;
use crate::word::{be_word, overlay};

verus! {

/// The whole chunks of `mem`, in order, each `chunk_size` bytes long.
pub open spec fn chunks_of(mem: Seq<u8>, chunk_size: int) -> Seq<Seq<u8>> {
    Seq::new(
        (mem.len() as int / chunk_size) as nat,
        |k: int| mem.subrange(k * chunk_size, k * chunk_size + chunk_size),
    )
}

/// The bytes of `mem` behind its last whole chunk: fewer than `chunk_size`,
/// and none where the length is a multiple of it.
pub open spec fn slack_of(mem: Seq<u8>, chunk_size: int) -> Seq<u8> {
    mem.subrange((mem.len() as int / chunk_size) * chunk_size, mem.len() as int)
}

/// Chunk `k` of a buffer of `len` bytes lies inside the buffer, and chunks
/// with different indices do not overlap.
pub proof fn lemma_chunk_span(len: int, chunk_size: int, k: int)
    requires
        chunk_size > 0,
        0 <= len,
        0 <= k < len / chunk_size,
    ensures
        0 <= k * chunk_size,
        k * chunk_size + chunk_size <= (len / chunk_size) * chunk_size,
        (len / chunk_size) * chunk_size <= len,
        k * chunk_size + chunk_size <= len,
{
    assert(0 <= k * chunk_size && k * chunk_size + chunk_size <= (len / chunk_size) * chunk_size
        && (len / chunk_size) * chunk_size <= len) by (nonlinear_arith)
        requires
            chunk_size > 0,
            0 <= len,
            0 <= k < len / chunk_size,
    ;
}

/// Two different chunks occupy disjoint byte ranges.
pub proof fn lemma_chunks_apart(chunk_size: int, j: int, k: int)
    requires
        chunk_size > 0,
        j != k,
    ensures
        j * chunk_size + chunk_size <= k * chunk_size || k * chunk_size + chunk_size
            <= j * chunk_size,
{
    assert(j * chunk_size + chunk_size <= k * chunk_size || k * chunk_size + chunk_size
        <= j * chunk_size) by (nonlinear_arith)
        requires
            chunk_size > 0,
            j != k,
    ;
}

/// The chunk view has one entry per whole chunk, each of the chunk size.
pub proof fn lemma_chunks_shape(mem: Seq<u8>, chunk_size: int)
    requires
        chunk_size > 0,
    ensures
        chunks_of(mem, chunk_size).len() == mem.len() as int / chunk_size,
        forall|k: int|
            0 <= k < chunks_of(mem, chunk_size).len() ==> (#[trigger] chunks_of(
                mem,
                chunk_size,
            )[k]).len() == chunk_size,
{
    assert forall|k: int| 0 <= k < chunks_of(mem, chunk_size).len() implies (#[trigger] chunks_of(
        mem,
        chunk_size,
    )[k]).len() == chunk_size by {
        lemma_chunk_span(mem.len() as int, chunk_size, k);
    }
}

/// A word read from the buffer inside chunk `k` is that word of the chunk.
pub proof fn lemma_word_in_chunk(mem: Seq<u8>, chunk_size: int, k: int, at: int)
    requires
        chunk_size > 0,
        0 <= k < mem.len() as int / chunk_size,
        0 <= at,
        at + 4 <= chunk_size,
    ensures
        be_word(mem, k * chunk_size + at) == be_word(chunks_of(mem, chunk_size)[k], at),
{
    lemma_chunk_span(mem.len() as int, chunk_size, k);
}

/// A range read from the buffer inside chunk `k` is that range of the chunk.
pub proof fn lemma_range_in_chunk(mem: Seq<u8>, chunk_size: int, k: int, from: int, n: int)
    requires
        chunk_size > 0,
        0 <= k < mem.len() as int / chunk_size,
        0 <= from,
        0 <= n,
        from + n <= chunk_size,
    ensures
        mem.subrange(k * chunk_size + from, k * chunk_size + from + n) == chunks_of(
            mem,
            chunk_size,
        )[k].subrange(from, from + n),
{
    lemma_chunk_span(mem.len() as int, chunk_size, k);
    assert(mem.subrange(k * chunk_size + from, k * chunk_size + from + n) =~= chunks_of(
        mem,
        chunk_size,
    )[k].subrange(from, from + n));
}

/// A patch of the buffer that stays inside chunk `k` patches that chunk and
/// leaves every other chunk as it was.
pub proof fn lemma_patch_in_chunk(mem: Seq<u8>, chunk_size: int, k: int, at: int, data: Seq<u8>)
    requires
        chunk_size > 0,
        0 <= k < mem.len() as int / chunk_size,
        0 <= at,
        at + data.len() <= chunk_size,
    ensures
        chunks_of(overlay(mem, k * chunk_size + at, data), chunk_size) == chunks_of(
            mem,
            chunk_size,
        ).update(k, overlay(chunks_of(mem, chunk_size)[k], at, data)),
        slack_of(overlay(mem, k * chunk_size + at, data), chunk_size) == slack_of(mem, chunk_size),
{
    let before = chunks_of(mem, chunk_size);
    let patched = overlay(mem, k * chunk_size + at, data);
    let after = chunks_of(patched, chunk_size);
    let want = before.update(k, overlay(before[k], at, data));
    lemma_chunk_span(mem.len() as int, chunk_size, k);
    assert(after.len() == want.len());
    assert forall|j: int| 0 <= j < after.len() implies after[j] == want[j] by {
        lemma_chunk_span(mem.len() as int, chunk_size, j);
        if j != k {
            lemma_chunks_apart(chunk_size, j, k);
        }
        assert(after[j] =~= want[j]);
    }
    assert(after =~= want);
    assert(slack_of(patched, chunk_size) =~= slack_of(mem, chunk_size));
}

/// Where byte `i` of a buffer lies: in which whole chunk, if in one.
pub proof fn lemma_byte_place(len: int, chunk_size: int, i: int)
    requires
        chunk_size > 0,
        0 <= i < len,
    ensures
        i < (len / chunk_size) * chunk_size ==> 0 <= i / chunk_size < len / chunk_size,
        0 <= (i / chunk_size) * chunk_size <= i < (i / chunk_size) * chunk_size + chunk_size,
{
    assert((i < (len / chunk_size) * chunk_size ==> 0 <= i / chunk_size < len / chunk_size) && 0
        <= (i / chunk_size) * chunk_size <= i < (i / chunk_size) * chunk_size + chunk_size)
        by (nonlinear_arith)
        requires
            chunk_size > 0,
            0 <= i < len,
    ;
}

/// The length of a buffer, from the number of its whole chunks and the
/// length of its slack.
pub proof fn lemma_buffer_length(mem: Seq<u8>, chunk_size: int)
    requires
        chunk_size > 0,
    ensures
        mem.len() == chunks_of(mem, chunk_size).len() * chunk_size + slack_of(
            mem,
            chunk_size,
        ).len(),
{
    let len = mem.len() as int;
    assert(0 <= (len / chunk_size) * chunk_size <= len) by (nonlinear_arith)
        requires
            chunk_size > 0,
            0 <= len,
    ;
}

/// The chunk view loses nothing: two buffers with the same chunks and the
/// same slack are the same buffer.
pub proof fn lemma_buffer_by_chunks(a: Seq<u8>, b: Seq<u8>, chunk_size: int)
    requires
        chunk_size > 0,
        chunks_of(a, chunk_size) == chunks_of(b, chunk_size),
        slack_of(a, chunk_size) == slack_of(b, chunk_size),
    ensures
        a == b,
{
    lemma_buffer_length(a, chunk_size);
    lemma_buffer_length(b, chunk_size);
    let total = a.len() as int / chunk_size;
    assert(chunks_of(a, chunk_size).len() == total);
    assert(chunks_of(b, chunk_size).len() == b.len() as int / chunk_size);
    assert(a.len() == b.len());
    assert forall|i: int| 0 <= i < a.len() implies a[i] == b[i] by {
        lemma_byte_place(a.len() as int, chunk_size, i);
        if i < total * chunk_size {
            let k = i / chunk_size;
            lemma_chunk_span(a.len() as int, chunk_size, k);
            assert(chunks_of(a, chunk_size)[k][i - k * chunk_size] == a[i]);
            assert(chunks_of(b, chunk_size)[k][i - k * chunk_size] == b[i]);
        } else {
            assert(slack_of(a, chunk_size)[i - total * chunk_size] == a[i]);
            assert(slack_of(b, chunk_size)[i - total * chunk_size] == b[i]);
        }
    }
    assert(a =~= b);
}

} // verus!
