//! Content fingerprints of blocks.

use vstd::prelude::*;

verus! {

/// The 128-bit XXH3 fingerprint of `input`, unseeded.
pub uninterp spec fn xxh3_128_of(input: Seq<u8>) -> u128;

/// The 64-bit XXH3 fingerprint of `input`, unseeded.
pub uninterp spec fn xxh3_64_of(input: Seq<u8>) -> u64;

/// `xxhash_rust::xxh3::xxh3_128` hashes the whole slice with the default
/// secret and seed 0. Trusted: the result depends on the bytes alone.
pub assume_specification[ xxhash_rust::xxh3::xxh3_128 ](input: &[u8]) -> (h: u128)
    ensures
        h == xxh3_128_of(input@),
;

/// `xxhash_rust::xxh3::xxh3_64` hashes the whole slice with the default
/// secret and seed 0. Trusted: the result depends on the bytes alone.
pub assume_specification[ xxhash_rust::xxh3::xxh3_64 ](input: &[u8]) -> (h: u64)
    ensures
        h == xxh3_64_of(input@),
;

/// A block of `len` zero bytes.
pub open spec fn zeros(len: nat) -> Seq<u8> {
    Seq::new(len, |i: int| 0u8)
}

/// The fingerprint of an all-zero block of `block_size` bytes.
pub fn zeroed_hash(block_size: usize) -> (h: u128)
    ensures
        h == xxh3_128_of(zeros(block_size as nat)),
{
    let mut bytes: Vec<u8> = Vec::with_capacity(block_size);
    let mut i: usize = 0;
    while i < block_size
        invariant
            i <= block_size,
            bytes@ == zeros(i as nat),
        decreases block_size - i,
    {
        bytes.push(0u8);
        i += 1;
    }
    xxhash_rust::xxh3::xxh3_128(bytes.as_slice())
}

} // verus!
