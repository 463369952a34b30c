//! General purpose hash algorithms: deterministic, seeded, non-cryptographic
//! hashes over byte strings, all with the seed pinned to 0.
//!
//! The hash values themselves are computed by outside crates; each is given a
//! name here so that every caller's contract can state that the result
//! depends on the input bytes alone.
use vstd::prelude::*;

verus! {

/// The 32-bit MurmurHash3 (x86 variant) of a byte string, with seed 0.
pub uninterp spec fn murmur3_32_of(bytes: Seq<u8>) -> u32;

/// The 32-bit xxHash of a byte string, with seed 0.
pub uninterp spec fn xxhash_32_of(bytes: Seq<u8>) -> u32;

/// The 64-bit xxHash of a byte string, with seed 0.
pub uninterp spec fn xxhash_64_of(bytes: Seq<u8>) -> u64;

/// The hash primitives are pure and deterministic: equal byte strings hash
/// equal, in every call.  This is what the wrappers below assert by tying
/// each result to a function of the input bytes alone.
pub proof fn lemma_hashes_deterministic(b1: Seq<u8>, b2: Seq<u8>)
    requires
        b1 == b2,
    ensures
        murmur3_32_of(b1) == murmur3_32_of(b2),
        xxhash_32_of(b1) == xxhash_32_of(b2),
        xxhash_64_of(b1) == xxhash_64_of(b2),
{
}

/// Calculate the 32 bit murmur3 hash of the input string.
///
/// Relies on `mur3::murmurhash3_x86_32`: a pure function of the input bytes
/// and the seed, here pinned to 0.
#[verifier::external_body]
pub fn murmur3_32bit(s: &[u8]) -> (r: u32)
    ensures
        r == murmur3_32_of(s@),
{
    mur3::murmurhash3_x86_32(s, 0)
}

/// Calculate the 32 bit xxhash of the input string.
///
/// Relies on `twox_hash::XxHash32` (`with_seed`, `Hasher::write`,
/// `finish_32`): one streaming hasher seeded with 0 and fed the whole input
/// once, so the result is a pure function of the input bytes.
#[verifier::external_body]
pub fn xxhash_32bit(s: &[u8]) -> (r: u32)
    ensures
        r == xxhash_32_of(s@),
{
    let mut h = twox_hash::XxHash32::with_seed(0);
    std::hash::Hasher::write(&mut h, s);
    h.finish_32()
}

/// Calculate the 64 bit xxhash of the input string.
///
/// Relies on `twox_hash::XxHash64` (`with_seed`, `Hasher::write`,
/// `Hasher::finish`): one streaming hasher seeded with 0 and fed the whole
/// input once, so the result is a pure function of the input bytes.
#[verifier::external_body]
pub fn xxhash_64bit(s: &[u8]) -> (r: u64)
    ensures
        r == xxhash_64_of(s@),
{
    let mut h = twox_hash::XxHash64::with_seed(0);
    std::hash::Hasher::write(&mut h, s);
    std::hash::Hasher::finish(&h)
}

} // verus!
