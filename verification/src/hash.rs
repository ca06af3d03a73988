//! The seeded 64-bit byte hash that the filter, the perfect hash and the
//! artifact checksums share.

use vstd::prelude::*;

verus! {

/// The starting state of the byte fold.
pub const FNV_OFFSET: u64 = 0xcbf2_9ce4_8422_2325;

/// The multiplier of the byte fold.
pub const FNV_PRIME: u64 = 0x0000_0100_0000_01b3;

/// A bijective scrambling of a 64-bit word.
pub open spec fn mixed(x: u64) -> u64 {
    let a = (x ^ (x >> 30)).wrapping_mul(0xbf58_476d_1ce4_e5b9);
    let b = (a ^ (a >> 27)).wrapping_mul(0x94d0_49bb_1331_11eb);
    b ^ (b >> 31)
}

/// The state of the fold after one more byte.
pub open spec fn absorbed(h: u64, b: u8) -> u64 {
    (h ^ (b as u64)).wrapping_mul(FNV_PRIME)
}

/// The state of the fold after all of `data`, first byte first.
pub open spec fn folded(h: u64, data: Seq<u8>) -> u64
    decreases data.len(),
{
    if data.len() == 0 {
        h
    } else {
        absorbed(folded(h, data.drop_last()), data.last())
    }
}

/// The hash of `data` under `seed`.
pub open spec fn hash_of(seed: u64, data: Seq<u8>) -> u64 {
    mixed(folded(mixed(seed ^ FNV_OFFSET), data))
}

/// Scrambles a 64-bit word.
pub fn mix(x: u64) -> (r: u64)
    ensures
        r == mixed(x),
{
    let a: u64 = (x ^ (x >> 30)).wrapping_mul(0xbf58_476d_1ce4_e5b9);
    let b: u64 = (a ^ (a >> 27)).wrapping_mul(0x94d0_49bb_1331_11eb);
    b ^ (b >> 31)
}

/// Hashes `data` under `seed`.
pub fn hash(seed: u64, data: &[u8]) -> (h: u64)
    ensures
        h == hash_of(seed, data@),
{
    let mut h: u64 = mix(seed ^ FNV_OFFSET);
    let mut i: usize = 0;
    while i < data.len()
        invariant
            i <= data.len(),
            h == folded(mixed(seed ^ FNV_OFFSET), data@.take(i as int)),
        decreases data.len() - i,
    {
        proof {
            assert(data@.take(i + 1).drop_last() =~= data@.take(i as int));
        }
        h = (h ^ (data[i] as u64)).wrapping_mul(FNV_PRIME);
        i += 1;
    }
    proof {
        assert(data@.take(i as int) =~= data@);
    }
    mix(h)
}

} // verus!
