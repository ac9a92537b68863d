use vstd::prelude::*;

verus! {

/// The xxHash32 digest (seed 0) of a byte sequence.
pub uninterp spec fn xxh32_of(input: Seq<u8>) -> u32;

/// The xxHash3 64-bit digest of a byte sequence.
pub uninterp spec fn xxh3_64_of(input: Seq<u8>) -> u64;

/// Relies on `xxhash_rust::xxh32::xxh32`, called with seed 0: the digest is a
/// pure function of the input bytes.
#[verifier::external_body]
pub(crate) fn xxh32_digest(input: &[u8]) -> (r: u32)
    ensures
        r == xxh32_of(input@),
{
    xxhash_rust::xxh32::xxh32(input, 0)
}

/// Relies on `xxhash_rust::xxh3::xxh3_64`: the digest is a pure function of
/// the input bytes.
#[verifier::external_body]
pub(crate) fn xxh3_64_digest(input: &[u8]) -> (r: u64)
    ensures
        r == xxh3_64_of(input@),
{
    xxhash_rust::xxh3::xxh3_64(input)
}

} // verus!
