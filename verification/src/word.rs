//! Big-endian words and byte patches: the two ways in which the store
//! reads and changes a byte sequence.

use vstd::prelude::*;

verus! {

/// The unsigned 32-bit value that the four bytes of `mem` from `at` on spell,
/// most significant byte first.
pub open spec fn be_word(mem: Seq<u8>, at: int) -> u32 {
    (mem[at] as int * 0x100_0000 + mem[at + 1] as int * 0x1_0000 + mem[at + 2] as int * 0x100
        + mem[at + 3] as int) as u32
}

/// The four bytes of `val`, most significant byte first.
pub open spec fn word_bytes(val: u32) -> Seq<u8> {
    seq![
        (val / 0x100_0000) as u8,
        (val / 0x1_0000 % 0x100) as u8,
        (val / 0x100 % 0x100) as u8,
        (val % 0x100) as u8,
    ]
}

/// `mem` with `data` laid over it from index `at` on. Nothing is written
/// outside `mem`.
pub open spec fn overlay(mem: Seq<u8>, at: int, data: Seq<u8>) -> Seq<u8> {
    Seq::new(
        mem.len(),
        |i: int|
            if at <= i < at + data.len() {
                data[i - at]
            } else {
                mem[i]
            },
    )
}

/// A word that was written is the word that is read.
pub proof fn lemma_word_round_trip(mem: Seq<u8>, at: int, val: u32)
    requires
        0 <= at,
        at + 4 <= mem.len(),
    ensures
        be_word(overlay(mem, at, word_bytes(val)), at) == val,
{
    let out = overlay(mem, at, word_bytes(val));
    assert(out[at] == word_bytes(val)[0]);
    assert(out[at + 1] == word_bytes(val)[1]);
    assert(out[at + 2] == word_bytes(val)[2]);
    assert(out[at + 3] == word_bytes(val)[3]);
}

/// A patch leaves a word alone that lies wholly outside the patch.
pub proof fn lemma_word_outside_patch(mem: Seq<u8>, at: int, data: Seq<u8>, w: int)
    requires
        0 <= w,
        w + 4 <= mem.len(),
        w + 4 <= at || at + data.len() <= w,
    ensures
        be_word(overlay(mem, at, data), w) == be_word(mem, w),
{
}

} // verus!
