//! The seeded hash family that the Bloom filter and the count-min sketch share.

use vstd::prelude::*;

verus! {

/// The 32-bit MurmurHash3 of `bytes` under `seed`, as the crate
/// `murmurhash3` computes it on the machine at hand.
pub uninterp spec fn murmur3_32(bytes: Seq<u8>, seed: u32) -> u32;

/// The hash of `item` under `seed`, by `murmurhash3::murmurhash3_x86_32`.
/// The function reads the bytes and the seed and nothing else, so its result
/// is a function of the two; it reads four-byte blocks in the byte order of
/// the machine. Nothing more is claimed of the value.
#[verifier::external_body]
pub(crate) fn mmh3(item: &[u8], seed: u32) -> (h: u32)
    ensures
        h == murmur3_32(item@, seed),
{
    murmurhash3::murmurhash3_x86_32(item, seed)
}

} // verus!
