//! A versioned object store over one shared, fixed-size byte buffer.
//!
//! The buffer is cut into chunks of equal size. A record is a chain of
//! chunks that starts at its key; the first word of the head chunk counts
//! the writes to that key. A slab on top keeps decoded values in a cache
//! and reloads an entry whenever the counter in the buffer has moved on,
//! so that several slabs, each with its own cache, can work on one buffer.
//!
//! The layers, from the bottom:
//!
//! - [`word`] and [`layout`]: big-endian words, byte patches, and the chunk
//!   view of a flat buffer;
//! - [`chunked`]: bounded access to the buffer by chunk and offset;
//! - [`rope_model`] and [`ropes`]: the record store, as a mathematical
//!   object and as the code that keeps to it;
//! - [`rope_steps`], [`chain_laws`], [`rope_laws`] and [`book_laws`]: what
//!   is proved of the record store, from single steps up to many records
//!   in one buffer;
//! - [`slab_model`], [`shared_slab`] and [`slab_laws`]: the cached slab,
//!   its code and what is proved of it;
//! - [`slab_adapter`]: the interface that a file system sees;
//! - [`runtime`] and [`clock`]: plain values of the host.

pub mod error;
pub mod word;
pub mod layout;
pub mod chunked;
pub mod rope_model;
pub mod rope_steps;
pub mod chain_laws;
pub mod rope_laws;
pub mod book_laws;
pub mod ropes;
pub mod slab_model;
pub mod shared_slab;
pub mod slab_laws;
pub mod slab_adapter;
pub mod runtime;
pub mod clock;
