//! The ways in which an operation on the store can fail.

use vstd::prelude::*;

verus! {

/// Why an operation gave up.
#[derive(Debug, Clone, Copy, PartialEq, Eq, Structural)]
pub enum FsError {
    /// What is stored under a key cannot be read back as a value: a link of
    /// its chain leaves the buffer, or its bytes do not decode.
    InvalidData,
    /// A value could not be turned into a record: it did not encode, its
    /// encoding is too long for the length word, or the key's version
    /// counter is used up.
    IOError,
    /// No chunk is left: the key, or the free cursor, lies past the
    /// buffer's last chunk.
    OutOfBuffer,
}

} // verus!
