//! Core of a MinHash locality-sensitive-hashing engine: seeded hash
//! primitives, MinHash signature construction, an in-memory bucket/document
//! store with a lossless binary snapshot format, a binary document envelope
//! codec, and byte n-gram tokenization.
use vstd::prelude::*;

pub mod hash;
pub mod in_memory_store;
pub mod minhash;
pub mod snapshot_codec;
pub mod storage;
pub mod tokenize;
pub mod wire;

verus! {

/// The error conditions the library reports.  Lookup misses are not errors:
/// every query operation returns an empty or absent result instead.
#[derive(Clone, Copy, Debug, PartialEq, Eq, Structural)]
pub enum NarrowDownError {
    /// An argument violates a stated input constraint, such as coefficient
    /// arrays of different lengths.
    InvalidArgument,
    /// Bytes handed to a decoding boundary are not a well-formed encoding.
    MalformedInput,
}

} // verus!
