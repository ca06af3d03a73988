//! Plain-value stand-ins for the Ethereum primitives that the request and
//! number helpers work on: addresses, 32-byte words, access lists and 256-bit
//! unsigned integers held as four little-endian 64-bit limbs.

use vstd::prelude::*;

verus! {

/// A 20-byte account address.
#[derive(Debug, Clone, Copy, PartialEq, Eq, Hash, Default)]
pub struct Address(pub [u8; 20]);

/// A 32-byte word, used for storage keys.
#[derive(Debug, Clone, Copy, PartialEq, Eq, Hash, Default)]
pub struct B256(pub [u8; 32]);

/// One entry of an access list: an account and the storage keys that the
/// transaction plans to touch in it.
#[derive(Debug, Clone, PartialEq, Eq, Hash, Default)]
pub struct AccessListItem {
    /// The account that is accessed.
    pub address: Address,
    /// The storage keys that are accessed.
    pub storage_keys: Vec<B256>,
}

/// A list of accounts and storage keys that a transaction plans to access.
#[derive(Debug, Clone, PartialEq, Eq, Hash, Default)]
pub struct AccessList(pub Vec<AccessListItem>);

/// A 256-bit unsigned integer, least significant limb first.
#[derive(Debug, Clone, Copy, PartialEq, Eq, Hash)]
pub struct U256 {
    /// The four 64-bit limbs, least significant first.
    pub limbs: [u64; 4],
}

/// Two to the power 64, the weight of one limb.
pub open spec fn limb_base() -> nat {
    0x1_0000_0000_0000_0000
}

/// The number that a sequence of little-endian 64-bit limbs stands for.
pub open spec fn limbs_value(limbs: Seq<u64>) -> nat
    decreases limbs.len(),
{
    if limbs.len() == 0 {
        0
    } else {
        limbs[0] as nat + limb_base() * limbs_value(limbs.drop_first())
    }
}

impl View for U256 {
    type V = nat;

    /// The number that the four limbs stand for.
    open spec fn view(&self) -> nat {
        limbs_value(self.limbs@)
    }
}

impl U256 {
    /// The number zero.
    pub fn zero() -> (r: U256)
        ensures
            r.limbs@ == seq![0u64, 0u64, 0u64, 0u64],
            r@ == 0,
    {
        let r = U256 { limbs: [0, 0, 0, 0] };
        proof {
            lemma_limbs_value_four(r.limbs@);
        }
        r
    }

    /// Builds the number from its limbs, least significant first.
    pub fn from_limbs(limbs: [u64; 4]) -> (r: U256)
        ensures
            r.limbs == limbs,
    {
        U256 { limbs }
    }

    /// Widens a 64-bit number.
    pub fn from_u64(value: u64) -> (r: U256)
        ensures
            r.limbs@ == seq![value, 0u64, 0u64, 0u64],
            r@ == value as nat,
    {
        let r = U256 { limbs: [value, 0, 0, 0] };
        proof {
            lemma_limbs_value_four(r.limbs@);
        }
        r
    }

    /// Widens a 128-bit number.
    pub fn from_u128(value: u128) -> (r: U256)
        ensures
            r.limbs@ == seq![low_limb(value), high_limb(value), 0u64, 0u64],
            r@ == value as nat,
    {
        let lo: u64 = (value & 0xffff_ffff_ffff_ffff) as u64;
        let hi: u64 = (value >> 64) as u64;
        let r = U256 { limbs: [lo, hi, 0, 0] };
        proof {
            assert(value == (value & 0xffff_ffff_ffff_ffff) + 0x1_0000_0000_0000_0000 * (value
                >> 64)) by (bit_vector);
            assert((value & 0xffff_ffff_ffff_ffff) <= 0xffff_ffff_ffff_ffff) by (bit_vector);
            assert((value >> 64) <= 0xffff_ffff_ffff_ffff) by (bit_vector);
            lemma_limbs_value_four(r.limbs@);
        }
        r
    }

    /// Whether the number is zero.
    pub fn is_zero(&self) -> (b: bool)
        ensures
            b == (self@ == 0),
    {
        proof {
            lemma_limbs_value_four(self.limbs@);
        }
        self.limbs[0] == 0 && self.limbs[1] == 0 && self.limbs[2] == 0 && self.limbs[3] == 0
    }
}

/// The low 64 bits of a 128-bit number.
pub open spec fn low_limb(value: u128) -> u64 {
    (value & 0xffff_ffff_ffff_ffff) as u64
}

/// The high 64 bits of a 128-bit number.
pub open spec fn high_limb(value: u128) -> u64 {
    (value >> 64) as u64
}

/// The value of four limbs, written out.
pub proof fn lemma_limbs_value_four(limbs: Seq<u64>)
    requires
        limbs.len() == 4,
    ensures
        limbs_value(limbs) == limbs[0] as nat + limb_base() * (limbs[1] as nat + limb_base() * (
        limbs[2] as nat + limb_base() * (limbs[3] as nat))),
{
    let l1 = limbs.drop_first();
    let l2 = l1.drop_first();
    let l3 = l2.drop_first();
    let l4 = l3.drop_first();
    assert(l4.len() == 0);
    assert(limbs_value(l4) == 0);
    assert(limbs_value(l3) == l3[0] as nat + limb_base() * limbs_value(l4));
    assert(limbs_value(l2) == l2[0] as nat + limb_base() * limbs_value(l3));
    assert(limbs_value(l1) == l1[0] as nat + limb_base() * limbs_value(l2));
    assert(limbs_value(limbs) == limbs[0] as nat + limb_base() * limbs_value(l1));
    assert(limb_base() * 0 == 0);
}

} // verus!
