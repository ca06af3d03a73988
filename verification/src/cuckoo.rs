//! A cuckoo filter: buckets of four fingerprint slots, two candidate buckets
//! per element, and bounded relocation when both are full.
//!
//! The filter is described by a mathematical model, [`CuckooState`], whose
//! `insert` and `may_contain` say exactly what the executable filter does.
//! The laws at the end of the file are proved about the model: an element
//! that was inserted is reported present for as long as the filter lives.

use vstd::prelude::*;
use crate::bytes::byte_rows;
use crate::codec::{bytes_words, decode_words, encode_words, lemma_words_roundtrip, words_bytes};
use crate::error::NippyJarError;
use crate::filter::InclusionFilter;
use crate::hash::{hash, hash_of, mix, mixed};

verus! {

/// Fingerprint slots per bucket.
pub const BUCKET_SIZE: usize = 4;

/// Evictions that one insertion may make before the filter counts as full.
pub const MAX_KICKS: usize = 500;

/// The largest bucket mask: at most 2^28 buckets.
pub const MAX_BUCKET_MASK: u64 = 0x0fff_ffff;

/// The largest fingerprint mask: at most 32 bits.
pub const MAX_FINGERPRINT_MASK: u64 = 0xffff_ffff;

/// The fingerprint mask of a filter made without a target rate: 16 bits.
pub const DEFAULT_FINGERPRINT_MASK: u64 = 0xffff;

/// Seed of the hash that picks an element's first bucket.
pub const BUCKET_SEED: u64 = 0x6a09_e667_f3bc_c908;

/// Seed of the hash that an element's fingerprint is cut from.
pub const FINGERPRINT_SEED: u64 = 0xbb67_ae85_84ca_a73b;

/// Starting state of the generator that picks eviction victims.
pub const RNG_SEED: u64 = 0x3c6e_f372_fe94_f82b;

/// Multiplier of the victim generator.
pub const RNG_MUL: u64 = 6364136223846793005;

/// Increment of the victim generator.
pub const RNG_INC: u64 = 1442695040888963407;

/// The fingerprint of an element: a non-zero hash cut to the mask's width.
pub open spec fn fingerprint_of(element: Seq<u8>, fp_mask: u64) -> u64 {
    let f = hash_of(FINGERPRINT_SEED, element) & fp_mask;
    if f == 0 {
        1
    } else {
        f
    }
}

/// The first candidate bucket of an element.
pub open spec fn bucket_of(element: Seq<u8>, mask: u64) -> u64 {
    hash_of(BUCKET_SEED, element) & mask
}

/// The other candidate bucket of a fingerprint that sits in bucket `b`.
pub open spec fn alt_bucket(b: u64, fp: u64, mask: u64) -> u64 {
    b ^ (mixed(fp) & mask)
}

/// The generator's next state.
pub open spec fn next_rng(r: u64) -> u64 {
    r.wrapping_mul(RNG_MUL).wrapping_add(RNG_INC)
}

/// The slot within a bucket that a generator state selects.
pub open spec fn picked_slot(r: u64) -> int {
    ((r >> 33) & 3) as int
}

/// The smallest mask of the form 2^k - 1, reached from `mask` by doubling,
/// that covers `need` values, or the first such mask at or above `limit`.
pub open spec fn fit_mask(mask: u64, need: nat, limit: u64) -> u64
    decreases
            (if mask < limit {
                limit - mask
            } else {
                0
            }),
{
    if mask + 1 >= need || mask >= limit || mask >= 0x7fff_ffff_ffff_ffff {
        mask
    } else {
        fit_mask((2 * mask + 1) as u64, need, limit)
    }
}

/// The bucket mask of a filter made for `capacity` elements: the fewest
/// buckets, a power of two, that keep the load at or below three quarters.
pub open spec fn bucket_mask_for(capacity: nat) -> u64 {
    fit_mask(0, (capacity + 2) / 3, MAX_BUCKET_MASK)
}

/// The fingerprint mask for a target false-positive rate of one in
/// `one_in`: the narrowest fingerprint with at least eight times `one_in`
/// values, since a lookup compares against up to eight slots.
pub open spec fn fingerprint_mask_for(one_in: u32) -> u64 {
    fit_mask(1, 8 * (one_in as nat), MAX_FINGERPRINT_MASK)
}

/// The mathematical model of a cuckoo filter.
pub struct CuckooState {
    /// The fingerprint slots, four per bucket; zero marks an empty slot.
    pub slots: Seq<u64>,
    /// The number of buckets minus one; the number of buckets is a power of two.
    pub mask: u64,
    /// The mask that fingerprints are cut with.
    pub fp_mask: u64,
    /// The state of the generator that picks eviction victims.
    pub rng: u64,
}

impl CuckooState {
    /// The filter's invariant: a power-of-two number of buckets within the
    /// limit, and four slots for each.
    pub open spec fn wf(self) -> bool {
        &&& self.mask <= MAX_BUCKET_MASK
        &&& self.mask & ((self.mask + 1) as u64) == 0
        &&& self.slots.len() == (self.mask + 1) * 4
    }

    /// An empty filter with the given masks.
    pub open spec fn empty(mask: u64, fp_mask: u64) -> CuckooState {
        CuckooState {
            slots: Seq::new(((mask + 1) * 4) as nat, |i: int| 0u64),
            mask,
            fp_mask,
            rng: RNG_SEED,
        }
    }

    /// The content of slot `s` of bucket `b`.
    pub open spec fn slot(self, b: u64, s: int) -> u64 {
        self.slots[b * 4 + s]
    }

    /// Whether bucket `b` holds the fingerprint `fp`.
    pub open spec fn bucket_has(self, b: u64, fp: u64) -> bool {
        self.slot(b, 0) == fp || self.slot(b, 1) == fp || self.slot(b, 2) == fp || self.slot(b, 3)
            == fp
    }

    /// What `contains` answers: whether the element's fingerprint sits in
    /// one of its two candidate buckets.
    #[verifier::opaque]
    pub open spec fn may_contain(self, element: Seq<u8>) -> bool {
        let fp = fingerprint_of(element, self.fp_mask);
        let b1 = bucket_of(element, self.mask);
        let b2 = alt_bucket(b1, fp, self.mask);
        self.bucket_has(b1, fp) || self.bucket_has(b2, fp)
    }

    /// The first empty slot of bucket `b`, if it has one.
    pub open spec fn free_slot(self, b: u64) -> Option<int> {
        if self.slot(b, 0) == 0 {
            Some(0)
        } else if self.slot(b, 1) == 0 {
            Some(1)
        } else if self.slot(b, 2) == 0 {
            Some(2)
        } else if self.slot(b, 3) == 0 {
            Some(3)
        } else {
            None
        }
    }

    /// The filter with `fp` written to slot `s` of bucket `b`.
    pub open spec fn put(self, b: u64, s: int, fp: u64) -> CuckooState {
        CuckooState { slots: self.slots.update(b * 4 + s, fp), ..self }
    }

    /// The filter with another generator state.
    pub open spec fn with_rng(self, rng: u64) -> CuckooState {
        CuckooState { rng, ..self }
    }

    /// Stores the homeless fingerprint `fp` in bucket `b`: in a free slot if
    /// there is one; otherwise in the place of a victim picked by the
    /// generator, which then moves on to its own other bucket, for at most
    /// `kicks` evictions. `None` when the evictions run out.
    pub open spec fn relocate(self, b: u64, fp: u64, kicks: nat) -> Option<CuckooState>
        decreases kicks,
    {
        match self.free_slot(b) {
            Some(s) => Some(self.put(b, s, fp)),
            None => if kicks == 0 {
                None
            } else {
                let r = next_rng(self.rng);
                let s = picked_slot(r);
                let victim = self.slot(b, s);
                self.put(b, s, fp).with_rng(r).relocate(
                    alt_bucket(b, victim, self.mask),
                    victim,
                    (kicks - 1) as nat,
                )
            },
        }
    }

    /// The filter after inserting an element, or `None` if the insertion
    /// cannot complete: the fingerprint goes to a free slot of the first
    /// candidate bucket, else of the second; with both full, the generator
    /// picks the bucket in which relocation starts.
    #[verifier::opaque]
    pub open spec fn insert(self, element: Seq<u8>) -> Option<CuckooState> {
        let fp = fingerprint_of(element, self.fp_mask);
        let b1 = bucket_of(element, self.mask);
        let b2 = alt_bucket(b1, fp, self.mask);
        match self.free_slot(b1) {
            Some(s) => Some(self.put(b1, s, fp)),
            None => match self.free_slot(b2) {
                Some(s) => Some(self.put(b2, s, fp)),
                None => {
                    let r = next_rng(self.rng);
                    let start = if r >> 63 == 0 {
                        b1
                    } else {
                        b2
                    };
                    self.with_rng(r).relocate(start, fp, MAX_KICKS as nat)
                },
            },
        }
    }

    /// The filter after inserting the elements in order, or `None` as soon
    /// as one insertion cannot complete.
    pub open spec fn insert_all(self, elements: Seq<Seq<u8>>) -> Option<CuckooState>
        decreases elements.len(),
    {
        if elements.len() == 0 {
            Some(self)
        } else {
            match self.insert_all(elements.drop_last()) {
                Some(st) => st.insert(elements.last()),
                None => None,
            }
        }
    }

    /// Whether writing `fp` into bucket `b` makes `element` a member.
    pub open spec fn covers(self, element: Seq<u8>, b: u64, fp: u64) -> bool {
        let b1 = bucket_of(element, self.mask);
        &&& fingerprint_of(element, self.fp_mask) == fp
        &&& (b1 == b || alt_bucket(b1, fp, self.mask) == b)
    }
}

/// Undoes recorded slot writes, last write first.
pub open spec fn undone(slots: Seq<u64>, path: Seq<(usize, u64)>) -> Seq<u64>
    decreases path.len(),
{
    if path.len() == 0 {
        slots
    } else {
        undone(slots.update(path.last().0 as int, path.last().1), path.drop_last())
    }
}

/// A masked hash stays within the mask of a power-of-two bucket count.
pub proof fn lemma_masked_in_range(h: u64, mask: u64)
    ensures
        h & mask <= mask,
{
    assert(h & mask <= mask) by (bit_vector);
}

/// The other bucket of a fingerprint lies within the filter, and the other
/// bucket of the other bucket is the bucket itself.
pub proof fn lemma_alt_bucket(b: u64, fp: u64, mask: u64)
    requires
        b <= mask,
        mask & ((mask + 1) as u64) == 0,
        mask <= MAX_BUCKET_MASK,
    ensures
        alt_bucket(b, fp, mask) <= mask,
        alt_bucket(alt_bucket(b, fp, mask), fp, mask) == b,
{
    let m = mixed(fp);
    assert(mask <= 0x0fff_ffff && b <= mask && mask & ((mask + 1) as u64) == 0 ==> (b ^ (m & mask))
        <= mask) by (bit_vector);
    assert(((b ^ (m & mask)) ^ (m & mask)) == b) by (bit_vector);
}

/// Both candidate buckets of an element lie within the filter.
pub proof fn lemma_candidates_in_range(st: CuckooState, element: Seq<u8>)
    requires
        st.wf(),
    ensures
        bucket_of(element, st.mask) <= st.mask,
        alt_bucket(bucket_of(element, st.mask), fingerprint_of(element, st.fp_mask), st.mask)
            <= st.mask,
        fingerprint_of(element, st.fp_mask) != 0,
{
    lemma_masked_in_range(hash_of(BUCKET_SEED, element), st.mask);
    lemma_alt_bucket(
        bucket_of(element, st.mask),
        fingerprint_of(element, st.fp_mask),
        st.mask,
    );
}

/// The generator selects one of the four slots.
pub proof fn lemma_picked_slot(r: u64)
    ensures
        0 <= picked_slot(r) <= 3,
{
    assert((r >> 33) & 3 <= 3) by (bit_vector);
}

/// Relocation keeps the filter's shape.
pub proof fn lemma_relocate_wf(st: CuckooState, b: u64, fp: u64, kicks: nat)
    requires
        st.wf(),
        b <= st.mask,
        st.relocate(b, fp, kicks) is Some,
    ensures
        st.relocate(b, fp, kicks)->0.wf(),
        st.relocate(b, fp, kicks)->0.mask == st.mask,
        st.relocate(b, fp, kicks)->0.fp_mask == st.fp_mask,
    decreases kicks,
{
    if st.free_slot(b) is None && kicks > 0 {
        let r = next_rng(st.rng);
        let s = picked_slot(r);
        lemma_picked_slot(r);
        let victim = st.slot(b, s);
        lemma_alt_bucket(b, victim, st.mask);
        lemma_relocate_wf(
            st.put(b, s, fp).with_rng(r),
            alt_bucket(b, victim, st.mask),
            victim,
            (kicks - 1) as nat,
        );
    }
}

/// Relocation loses no member: an element that was reported present, or
/// that the homeless fingerprint stands for, is reported present afterwards.
pub proof fn lemma_relocate_keeps(st: CuckooState, b: u64, fp: u64, kicks: nat, e: Seq<u8>)
    requires
        st.wf(),
        b <= st.mask,
        st.relocate(b, fp, kicks) is Some,
        st.may_contain(e) || st.covers(e, b, fp),
    ensures
        st.relocate(b, fp, kicks)->0.may_contain(e),
    decreases kicks,
{
    reveal(CuckooState::may_contain);
    lemma_candidates_in_range(st, e);
    let fe = fingerprint_of(e, st.fp_mask);
    let b1 = bucket_of(e, st.mask);
    let b2 = alt_bucket(b1, fe, st.mask);
    match st.free_slot(b) {
        Some(s) => {
            let after = st.put(b, s, fp);
            assert(st.slot(b, s) == 0);
            assert(forall|bb: u64, ss: int|
                bb <= st.mask && 0 <= ss < 4 && !(bb == b && ss == s) ==> #[trigger] after.slot(
                    bb,
                    ss,
                ) == st.slot(bb, ss));
            assert(after.slot(b, s) == fp);
        },
        None => {
            let r = next_rng(st.rng);
            let s = picked_slot(r);
            lemma_picked_slot(r);
            let victim = st.slot(b, s);
            let after = st.put(b, s, fp).with_rng(r);
            let nb = alt_bucket(b, victim, st.mask);
            lemma_alt_bucket(b, victim, st.mask);
            lemma_alt_bucket(b1, fe, st.mask);
            assert(forall|bb: u64, ss: int|
                bb <= st.mask && 0 <= ss < 4 && !(bb == b && ss == s) ==> #[trigger] after.slot(
                    bb,
                    ss,
                ) == st.slot(bb, ss));
            assert(after.slot(b, s) == fp);
            assert(after.wf());
            if st.covers(e, b, fp) {
                assert(after.bucket_has(b, fp));
                assert(after.may_contain(e));
            } else if after.may_contain(e) {
            } else {
                // the element's fingerprint was the victim
                assert(victim == fe);
                assert(b == b1 || b == b2);
                assert(after.covers(e, nb, victim));
            }
            lemma_relocate_keeps(after, nb, victim, (kicks - 1) as nat, e);
        },
    }
}

/// An insertion that completes keeps the filter's shape.
pub proof fn lemma_insert_wf(st: CuckooState, element: Seq<u8>)
    requires
        st.wf(),
        st.insert(element) is Some,
    ensures
        st.insert(element)->0.wf(),
        st.insert(element)->0.mask == st.mask,
        st.insert(element)->0.fp_mask == st.fp_mask,
{
    reveal(CuckooState::insert);
    lemma_candidates_in_range(st, element);
    let fp = fingerprint_of(element, st.fp_mask);
    let b1 = bucket_of(element, st.mask);
    let b2 = alt_bucket(b1, fp, st.mask);
    if st.free_slot(b1) is None && st.free_slot(b2) is None {
        let r = next_rng(st.rng);
        let start = if r >> 63 == 0 {
            b1
        } else {
            b2
        };
        lemma_relocate_wf(st.with_rng(r), start, fp, MAX_KICKS as nat);
    }
}

/// No false negatives, one step: an element whose insertion completed is
/// reported present.
pub proof fn lemma_insert_adds(st: CuckooState, element: Seq<u8>)
    requires
        st.wf(),
        st.insert(element) is Some,
    ensures
        st.insert(element)->0.may_contain(element),
{
    reveal(CuckooState::insert);
    reveal(CuckooState::may_contain);
    lemma_candidates_in_range(st, element);
    let fp = fingerprint_of(element, st.fp_mask);
    let b1 = bucket_of(element, st.mask);
    let b2 = alt_bucket(b1, fp, st.mask);
    match st.free_slot(b1) {
        Some(s) => {
            assert(st.put(b1, s, fp).slot(b1, s) == fp);
        },
        None => match st.free_slot(b2) {
            Some(s) => {
                assert(st.put(b2, s, fp).slot(b2, s) == fp);
            },
            None => {
                let r = next_rng(st.rng);
                let start = if r >> 63 == 0 {
                    b1
                } else {
                    b2
                };
                assert(st.with_rng(r).covers(element, start, fp));
                lemma_relocate_keeps(st.with_rng(r), start, fp, MAX_KICKS as nat, element);
            },
        },
    }
}

/// No false negatives, over time: an element that was reported present
/// before another insertion completed is reported present after it.
pub proof fn lemma_insert_keeps(st: CuckooState, element: Seq<u8>, e: Seq<u8>)
    requires
        st.wf(),
        st.insert(element) is Some,
        st.may_contain(e),
    ensures
        st.insert(element)->0.may_contain(e),
{
    reveal(CuckooState::insert);
    reveal(CuckooState::may_contain);
    lemma_candidates_in_range(st, element);
    lemma_candidates_in_range(st, e);
    let fp = fingerprint_of(element, st.fp_mask);
    let b1 = bucket_of(element, st.mask);
    let b2 = alt_bucket(b1, fp, st.mask);
    match st.free_slot(b1) {
        Some(s) => {
            let after = st.put(b1, s, fp);
            assert(forall|bb: u64, ss: int|
                bb <= st.mask && 0 <= ss < 4 && !(bb == b1 && ss == s) ==> #[trigger] after.slot(
                    bb,
                    ss,
                ) == st.slot(bb, ss));
        },
        None => match st.free_slot(b2) {
            Some(s) => {
                let after = st.put(b2, s, fp);
                assert(forall|bb: u64, ss: int|
                    bb <= st.mask && 0 <= ss < 4 && !(bb == b2 && ss == s)
                        ==> #[trigger] after.slot(bb, ss) == st.slot(bb, ss));
            },
            None => {
                let r = next_rng(st.rng);
                let start = if r >> 63 == 0 {
                    b1
                } else {
                    b2
                };
                assert(st.with_rng(r).may_contain(e));
                lemma_relocate_keeps(st.with_rng(r), start, fp, MAX_KICKS as nat, e);
            },
        },
    }
}

/// A run of insertions that all complete keeps the filter's shape.
pub proof fn lemma_insert_all_wf(st: CuckooState, elements: Seq<Seq<u8>>)
    requires
        st.wf(),
        st.insert_all(elements) is Some,
    ensures
        st.insert_all(elements)->0.wf(),
        st.insert_all(elements)->0.mask == st.mask,
        st.insert_all(elements)->0.fp_mask == st.fp_mask,
    decreases elements.len(),
{
    if elements.len() > 0 {
        lemma_insert_all_wf(st, elements.drop_last());
        lemma_insert_wf(st.insert_all(elements.drop_last())->0, elements.last());
    }
}

/// No false negatives: after a run of insertions that all completed, every
/// inserted element, and every element that was reported present before the
/// run, is reported present.
pub proof fn lemma_no_false_negatives(st: CuckooState, elements: Seq<Seq<u8>>, e: Seq<u8>)
    requires
        st.wf(),
        st.insert_all(elements) is Some,
        st.may_contain(e) || elements.contains(e),
    ensures
        st.insert_all(elements)->0.may_contain(e),
    decreases elements.len(),
{
    if elements.len() > 0 {
        let before = st.insert_all(elements.drop_last())->0;
        lemma_insert_all_wf(st, elements.drop_last());
        if elements.last() == e {
            lemma_insert_adds(before, e);
        } else {
            if !st.may_contain(e) {
                let i = choose|i: int| 0 <= i < elements.len() && elements[i] == e;
                assert(elements.drop_last()[i] == e);
                assert(elements.drop_last().contains(e));
            }
            lemma_no_false_negatives(st, elements.drop_last(), e);
            lemma_insert_keeps(before, elements.last(), e);
        }
    }
}

/// A cuckoo filter over byte strings.
#[derive(Debug)]
pub struct Cuckoo {
    slots: Vec<u64>,
    mask: u64,
    fp_mask: u64,
    rng: u64,
}

impl View for Cuckoo {
    type V = CuckooState;

    closed spec fn view(&self) -> CuckooState {
        CuckooState { slots: self.slots@, mask: self.mask, fp_mask: self.fp_mask, rng: self.rng }
    }
}

/// Grows a mask of the form 2^k - 1 until it covers `need` values or
/// reaches `limit`.
fn grow_mask(start: u64, need: u64, limit: u64) -> (mask: u64)
    requires
        start & ((start + 1) as u64) == 0,
        limit & ((limit + 1) as u64) == 0,
        start <= limit <= 0xffff_ffff,
    ensures
        mask == fit_mask(start, need as nat, limit),
        mask & ((mask + 1) as u64) == 0,
        start <= mask <= limit,
{
    let mut mask: u64 = start;
    while mask + 1 < need && mask < limit
        invariant
            mask & ((mask + 1) as u64) == 0,
            limit & ((limit + 1) as u64) == 0,
            start <= mask <= limit <= 0xffff_ffff,
            fit_mask(mask, need as nat, limit) == fit_mask(start, need as nat, limit),
        decreases limit - mask,
    {
        assert(mask & ((mask + 1) as u64) == 0 && limit & ((limit + 1) as u64) == 0 && mask < limit
            && limit <= 0xffff_ffff ==> ((2 * mask + 1) as u64) & ((2 * mask + 2) as u64) == 0 && (2
            * mask + 1) as u64 <= limit) by (bit_vector);
        mask = 2 * mask + 1;
    }
    mask
}

impl Cuckoo {
    /// Whether the filter's invariant holds; every filter that this module
    /// hands out is well formed.
    pub open spec fn wf(&self) -> bool {
        self@.wf()
    }

    /// Creates an empty filter with room for `max_capacity` elements and
    /// 16-bit fingerprints.
    pub fn new(max_capacity: usize) -> (r: Self)
        ensures
            r.wf(),
            r@ == CuckooState::empty(bucket_mask_for(max_capacity as nat), DEFAULT_FINGERPRINT_MASK),
    {
        Self::with_masks(max_capacity, DEFAULT_FINGERPRINT_MASK)
    }

    /// Creates an empty filter with room for `max_capacity` elements whose
    /// fingerprints are wide enough for a false-positive rate of about one
    /// in `one_in`.
    pub fn with_false_positive_rate(max_capacity: usize, one_in: u32) -> (r: Self)
        ensures
            r.wf(),
            r@ == CuckooState::empty(
                bucket_mask_for(max_capacity as nat),
                fingerprint_mask_for(one_in),
            ),
    {
        assert(1u64 & 2u64 == 0) by (bit_vector);
        assert(0xffff_ffffu64 & 0x1_0000_0000u64 == 0) by (bit_vector);
        let fp_mask = grow_mask(1, 8 * (one_in as u64), MAX_FINGERPRINT_MASK);
        Self::with_masks(max_capacity, fp_mask)
    }

    fn with_masks(max_capacity: usize, fp_mask: u64) -> (r: Self)
        ensures
            r.wf(),
            r@ == CuckooState::empty(bucket_mask_for(max_capacity as nat), fp_mask),
    {
        assert(0u64 & 1u64 == 0) by (bit_vector);
        assert(0x0fff_ffffu64 & 0x1000_0000u64 == 0) by (bit_vector);
        let need: u64 = if max_capacity as u64 > u64::MAX - 2 {
            u64::MAX / 3
        } else {
            (max_capacity as u64 + 2) / 3
        };
        proof {
            if max_capacity as u64 > u64::MAX - 2 {
                lemma_fit_mask_saturates(0, need as nat, ((max_capacity + 2) / 3) as nat);
            }
        }
        let mask = grow_mask(0, need, MAX_BUCKET_MASK);
        let n: usize = ((mask + 1) * 4) as usize;
        let mut slots: Vec<u64> = Vec::new();
        let mut i: usize = 0;
        while i < n
            invariant
                i <= n,
                slots@.len() == i,
                forall|k: int| 0 <= k < i ==> slots@[k] == 0,
            decreases n - i,
        {
            slots.push(0);
            i += 1;
        }
        let r = Cuckoo { slots, mask, fp_mask, rng: RNG_SEED };
        proof {
            assert(r@.slots =~= CuckooState::empty(mask, fp_mask).slots);
        }
        r
    }

    /// The number of fingerprints that the filter has room for.
    pub fn capacity(&self) -> (n: usize)
        requires
            self.wf(),
        ensures
            n == (self@.mask + 1) * 4,
    {
        self.slots.len()
    }

    /// The fingerprint of an element under this filter.
    fn fingerprint(&self, element: &[u8]) -> (fp: u64)
        ensures
            fp == fingerprint_of(element@, self@.fp_mask),
    {
        let f: u64 = hash(FINGERPRINT_SEED, element) & self.fp_mask;
        if f == 0 {
            1
        } else {
            f
        }
    }

    /// The first candidate bucket of an element under this filter.
    fn bucket(&self, element: &[u8]) -> (b: u64)
        ensures
            b == bucket_of(element@, self@.mask),
            b <= self@.mask,
    {
        proof {
            lemma_masked_in_range(hash_of(BUCKET_SEED, element@), self.mask);
        }
        hash(BUCKET_SEED, element) & self.mask
    }

    /// The other bucket of a fingerprint that sits in bucket `b`.
    fn other_bucket(&self, b: u64, fp: u64) -> (nb: u64)
        requires
            self.wf(),
            b <= self@.mask,
        ensures
            nb == alt_bucket(b, fp, self@.mask),
            nb <= self@.mask,
    {
        proof {
            lemma_alt_bucket(b, fp, self.mask);
        }
        b ^ (mix(fp) & self.mask)
    }

    /// Whether bucket `b` holds the fingerprint.
    fn bucket_holds(&self, b: u64, fp: u64) -> (r: bool)
        requires
            self.wf(),
            b <= self@.mask,
        ensures
            r == self@.bucket_has(b, fp),
    {
        let base: usize = (b * 4) as usize;
        self.slots[base] == fp || self.slots[base + 1] == fp || self.slots[base + 2] == fp
            || self.slots[base + 3] == fp
    }

    /// Writes the fingerprint over a victim that the generator picks in the
    /// full bucket `b`, and returns the victim with the index of its slot.
    fn evict(&mut self, b: u64, fp: u64) -> (r: (usize, u64))
        requires
            old(self).wf(),
            b <= old(self)@.mask,
        ensures
            final(self).wf(),
            r.0 == b * 4 + picked_slot(next_rng(old(self)@.rng)),
            r.0 < old(self)@.slots.len(),
            r.1 == old(self)@.slot(b, picked_slot(next_rng(old(self)@.rng))),
            final(self)@ == old(self)@.put(b, picked_slot(next_rng(old(self)@.rng)), fp).with_rng(
                next_rng(old(self)@.rng),
            ),
    {
        self.rng = self.rng.wrapping_mul(RNG_MUL).wrapping_add(RNG_INC);
        let s: usize = ((self.rng >> 33) & 3) as usize;
        proof {
            lemma_picked_slot(self.rng);
        }
        let idx: usize = (b * 4) as usize + s;
        let victim: u64 = self.slots[idx];
        self.slots[idx] = fp;
        (idx, victim)
    }

    /// Writes the fingerprint into the first free slot of bucket `b`, if
    /// the bucket has one.
    fn try_place(&mut self, b: u64, fp: u64) -> (placed: bool)
        requires
            old(self).wf(),
            b <= old(self)@.mask,
        ensures
            match old(self)@.free_slot(b) {
                Some(s) => placed && final(self)@ == old(self)@.put(b, s, fp),
                None => !placed && final(self)@ == old(self)@,
            },
    {
        let base: usize = (b * 4) as usize;
        let mut s: usize = 0;
        while s < 4
            invariant
                s <= 4,
                base == b * 4,
                b <= self@.mask,
                self.wf(),
                *self == *old(self),
                forall|k: int| 0 <= k < s ==> self@.slot(b, k) != 0,
            decreases 4 - s,
        {
            if self.slots[base + s] == 0 {
                self.slots[base + s] = fp;
                return true;
            }
            s += 1;
        }
        false
    }
}

impl InclusionFilter for Cuckoo {
    open spec fn valid(&self) -> bool {
        self.wf()
    }

    open spec fn may_contain(&self, element: Seq<u8>) -> bool {
        self@.may_contain(element)
    }

    /// Whether the element was added, with a bounded chance of answering
    /// `true` for one that was not.
    fn contains(&self, element: &[u8]) -> (r: Result<bool, NippyJarError>)
        ensures
            r == Ok::<bool, NippyJarError>(self@.may_contain(element@)),
    {
        proof {
            reveal(CuckooState::may_contain);
        }
        let fp = self.fingerprint(element);
        let b1 = self.bucket(element);
        if self.bucket_holds(b1, fp) {
            return Ok(true);
        }
        let b2 = self.other_bucket(b1, fp);
        Ok(self.bucket_holds(b2, fp))
    }

    /// Adds the element. When the relocation budget runs out the filter is
    /// left exactly as it was and the capacity error is returned.
    fn add(&mut self, element: &[u8]) -> (r: Result<(), NippyJarError>)
        ensures
            final(self)@.mask == old(self)@.mask,
            final(self)@.fp_mask == old(self)@.fp_mask,
            match old(self)@.insert(element@) {
                Some(st) => r == Ok::<(), NippyJarError>(()) && final(self)@ == st,
                None => r == Err::<(), NippyJarError>(NippyJarError::FilterMaxCapacity)
                    && final(self)@ == old(self)@,
            },
    {
        let fp = self.fingerprint(element);
        let b1 = self.bucket(element);
        let b2 = self.other_bucket(b1, fp);
        proof {
            reveal(CuckooState::insert);
            if old(self)@.insert(element@) is Some {
                lemma_insert_wf(old(self)@, element@);
                lemma_insert_adds(old(self)@, element@);
            }
            assert forall|e: Seq<u8>| old(self)@.insert(element@) is Some && old(
                self,
            )@.may_contain(e) implies (#[trigger] old(self)@.insert(element@)->0.may_contain(e)) by {
                lemma_insert_keeps(old(self)@, element@, e);
            }
        }
        if self.try_place(b1, fp) {
            return Ok(());
        }
        if self.try_place(b2, fp) {
            return Ok(());
        }
        let saved_rng: u64 = self.rng;
        self.rng = self.rng.wrapping_mul(RNG_MUL).wrapping_add(RNG_INC);
        let mut bucket: u64 = if self.rng >> 63 == 0 {
            b1
        } else {
            b2
        };
        let mut hand: u64 = fp;
        let mut kicks: usize = MAX_KICKS;
        let mut path: Vec<(usize, u64)> = Vec::new();
        let ghost target = old(self)@.insert(element@);
        let mut placed: bool = false;
        assert(self@ == old(self)@.with_rng(self.rng));
        while !placed && kicks > 0
            invariant
                self.wf(),
                self@.mask == old(self)@.mask,
                self@.fp_mask == old(self)@.fp_mask,
                bucket <= self@.mask,
                kicks <= MAX_KICKS,
                placed ==> target == Some(self@),
                !placed ==> self@.relocate(bucket, hand, kicks as nat) == target,
                !placed ==> self@.free_slot(bucket) is None,
                !placed ==> undone(self@.slots, path@) == old(self)@.slots,
                forall|k: int| 0 <= k < path@.len() ==> (#[trigger] path@[k]).0 < self@.slots.len(),
            decreases kicks,
        {
            let ghost before = self@;
            let ghost from = bucket;
            let ghost carried = hand;
            let (idx, victim) = self.evict(bucket, hand);
            proof {
                assert(path@.push((idx, victim)).drop_last() =~= path@);
                assert(self@.slots.update(idx as int, victim) =~= before.slots);
            }
            path.push((idx, victim));
            bucket = self.other_bucket(bucket, victim);
            hand = victim;
            kicks -= 1;
            assert(before.relocate(from, carried, (kicks + 1) as nat) == self@.relocate(
                bucket,
                hand,
                kicks as nat,
            ));
            placed = self.try_place(bucket, hand);
        }
        if placed {
            return Ok(());
        }
        while path.len() > 0
            invariant
                self@.mask == old(self)@.mask,
                self@.fp_mask == old(self)@.fp_mask,
                self@.slots.len() == old(self)@.slots.len(),
                undone(self@.slots, path@) == old(self)@.slots,
                forall|k: int| 0 <= k < path@.len() ==> (#[trigger] path@[k]).0 < self@.slots.len(),
            decreases path.len(),
        {
            let ghost prev_path = path@;
            let (idx, value) = path.pop().unwrap();
            self.slots[idx] = value;
            proof {
                assert(path@ =~= prev_path.drop_last());
            }
        }
        self.rng = saved_rng;
        proof {
            assert(self@.slots =~= old(self)@.slots);
        }
        Err(NippyJarError::FilterMaxCapacity)
    }
}

/// A need beyond the limit asks for the same mask as any other such need.
proof fn lemma_fit_mask_saturates(mask: u64, need1: nat, need2: nat)
    requires
        need1 > MAX_BUCKET_MASK + 1,
        need2 > MAX_BUCKET_MASK + 1,
    ensures
        fit_mask(mask, need1, MAX_BUCKET_MASK) == fit_mask(mask, need2, MAX_BUCKET_MASK),
    decreases
            (if mask < MAX_BUCKET_MASK {
                MAX_BUCKET_MASK - mask
            } else {
                0
            }),
{
    if mask < MAX_BUCKET_MASK {
        lemma_fit_mask_saturates((2 * mask + 1) as u64, need1, need2);
    }
}

impl CuckooState {
    /// The filter as sections of an artifact: its three parameters, then
    /// its slots.
    pub open spec fn sections(self) -> Seq<Seq<u8>> {
        seq![words_bytes(seq![self.mask, self.fp_mask, self.rng]), words_bytes(self.slots)]
    }

    /// The filter that sections of an artifact hold, if they hold a well
    /// formed one.
    pub open spec fn decoded(sections: Seq<Seq<u8>>) -> Option<CuckooState> {
        if sections.len() != 2 {
            None
        } else {
            match (bytes_words(sections[0]), bytes_words(sections[1])) {
                (Some(params), Some(slots)) => {
                    let st = CuckooState {
                        slots,
                        mask: params[0],
                        fp_mask: params[1],
                        rng: params[2],
                    };
                    if params.len() == 3 && st.wf() {
                        Some(st)
                    } else {
                        None
                    }
                },
                _ => None,
            }
        }
    }
}

/// Round trip of a filter: its sections hold the filter itself.
pub proof fn lemma_cuckoo_roundtrip(st: CuckooState)
    requires
        st.wf(),
    ensures
        CuckooState::decoded(st.sections()) == Some(st),
{
    let params = seq![st.mask, st.fp_mask, st.rng];
    lemma_words_roundtrip(params);
    lemma_words_roundtrip(st.slots);
}

impl Cuckoo {
    /// The filter as sections of an artifact.
    pub fn to_sections(&self) -> (out: Vec<Vec<u8>>)
        ensures
            byte_rows(out@) == self@.sections(),
    {
        let mut params: Vec<u64> = Vec::new();
        params.push(self.mask);
        params.push(self.fp_mask);
        params.push(self.rng);
        let mut out: Vec<Vec<u8>> = Vec::new();
        out.push(encode_words(&params));
        out.push(encode_words(&self.slots));
        proof {
            assert(params@ =~= seq![self.mask, self.fp_mask, self.rng]);
            assert(byte_rows(out@) =~= self@.sections());
        }
        out
    }

    /// The filter that sections of an artifact hold, if they hold a well
    /// formed one.
    pub fn from_sections(sections: &Vec<Vec<u8>>) -> (r: Option<Cuckoo>)
        ensures
            match CuckooState::decoded(byte_rows(sections@)) {
                Some(st) => r matches Some(c) && c@ == st && c.wf(),
                None => r is None,
            },
    {
        if sections.len() != 2 {
            return None;
        }
        proof {
            assert(byte_rows(sections@)[0] == sections@[0]@);
            assert(byte_rows(sections@)[1] == sections@[1]@);
        }
        let params = match decode_words(sections[0].as_slice()) {
            Some(p) => p,
            None => {
                return None;
            },
        };
        let slots = match decode_words(sections[1].as_slice()) {
            Some(s) => s,
            None => {
                return None;
            },
        };
        if params.len() != 3 {
            return None;
        }
        let mask: u64 = params[0];
        let fp_mask: u64 = params[1];
        let rng: u64 = params[2];
        if mask > MAX_BUCKET_MASK || mask & (mask + 1) != 0 || slots.len() as u64 != (mask + 1) * 4 {
            return None;
        }
        Some(Cuckoo { slots, mask, fp_mask, rng })
    }
}

} // verus!
