//! A minimal perfect hash over a fixed set of keys.
//!
//! The index is a cascade of hash tables. On each level every key that is
//! still unplaced hashes to one slot; a slot that exactly one key reached
//! remembers that key's ordinal, and the keys that met another key move on
//! to the next level. The few keys that are left after the last level are
//! kept in full. No key of the build set is stored on the levels, and a
//! lookup of a key from the build set returns its position in that set.
//!
//! Two strategies share the layout. The baseline puts a whole level into
//! one group under one seed. The group-optimized strategy cuts a level into
//! small groups and gives each group, out of a few candidates, the seed
//! that places the most keys: a larger index that needs fewer levels.

use vstd::prelude::*;
use crate::bytes::{byte_rows, bytes_eq, copy_bytes};
use crate::codec::{bytes_words, decode_words, encode_words, lemma_words_roundtrip, words_bytes};
use crate::error::NippyJarError;
use crate::hash::{hash, hash_of, mix, mixed};
use crate::snapshot::PerfectHashingFunction;

verus! {

/// The largest number of keys that an index is built over.
pub const MAX_KEYS: usize = 0x3fff_ffff;

/// The largest number of levels; keys that are still unplaced after the
/// last one are kept in full.
pub const MAX_LEVELS: usize = 48;

/// The number of slots of one group under the group-optimized strategy.
pub const GROUP_SLOTS: usize = 16;

/// The number of seeds that the group-optimized strategy tries per group.
pub const SEED_CANDIDATES: u64 = 4;

/// The largest number of slots of one level.
pub const MAX_TABLE: usize = 0xffff_ffff;

/// A slot that no key reached.
pub const EMPTY: u64 = 0;

/// A slot that more than one key reached.
pub const COLLISION: u64 = 1;

/// Base of the seeds that pick a key's group.
pub const GROUP_SEED: u64 = 0x510e_527f_ade6_82d1;

/// Base of the seeds that pick a key's slot within its group.
pub const SLOT_SEED: u64 = 0x9b05_688c_2b3e_6c1f;

/// The seed that picks a key's group on a level.
pub open spec fn group_seed(level: u64) -> u64 {
    mixed(GROUP_SEED ^ level)
}

/// The `c`-th candidate seed of a level.
pub open spec fn candidate_seed(level: u64, c: u64) -> u64 {
    mixed(SLOT_SEED ^ ((level * 8 + c) as u64))
}

/// The slot that a key reaches on a level with the given seeds, one per
/// group, and group size.
pub open spec fn slot_of(key: Seq<u8>, level: u64, seeds: Seq<u64>, group_size: nat) -> int {
    let g = (hash_of(group_seed(level), key) as int) % (seeds.len() as int);
    let s = (hash_of(seeds[g], key) as int) % (group_size as int);
    g * group_size + s
}

/// The table of a level after the keys with the ordinals `rem` have each
/// claimed their slot, in order: the first to reach a slot leaves its
/// ordinal plus two, any later one turns the slot into a collision.
pub open spec fn filled(
    keys: Seq<Seq<u8>>,
    rem: Seq<usize>,
    level: u64,
    seeds: Seq<u64>,
    group_size: nat,
) -> Seq<u64>
    decreases rem.len(),
{
    if rem.len() == 0 {
        Seq::new(seeds.len() * group_size, |i: int| EMPTY)
    } else {
        let t = filled(keys, rem.drop_last(), level, seeds, group_size);
        let p = slot_of(keys[rem.last() as int], level, seeds, group_size);
        t.update(
            p,
            if t[p] == EMPTY {
                (rem.last() + 2) as u64
            } else {
                COLLISION
            },
        )
    }
}

/// The ordinals of `rem`, in order, whose keys did not get a slot of their
/// own in `table`.
pub open spec fn survivors(
    keys: Seq<Seq<u8>>,
    rem: Seq<usize>,
    level: u64,
    seeds: Seq<u64>,
    group_size: nat,
    table: Seq<u64>,
) -> Seq<usize>
    decreases rem.len(),
{
    if rem.len() == 0 {
        Seq::empty()
    } else {
        let rest = survivors(keys, rem.drop_last(), level, seeds, group_size, table);
        let j = rem.last();
        if table[slot_of(keys[j as int], level, seeds, group_size)] == j + 2 {
            rest
        } else {
            rest.push(j)
        }
    }
}

/// The number of slots among `count` slots from `start` that hold an ordinal.
pub open spec fn occupied(table: Seq<u64>, start: int, count: nat) -> nat
    decreases count,
{
    if count == 0 {
        0
    } else {
        occupied(table, start, (count - 1) as nat) + if table[start + count - 1] >= 2 {
            1nat
        } else {
            0nat
        }
    }
}

/// The same seed for each of `groups` groups.
pub open spec fn uniform(groups: nat, seed: u64) -> Seq<u64> {
    Seq::new(groups, |g: int| seed)
}

/// The number of keys that group `g` places when every group uses the
/// `c`-th candidate seed.
pub open spec fn score(
    keys: Seq<Seq<u8>>,
    rem: Seq<usize>,
    level: u64,
    groups: nat,
    group_size: nat,
    g: int,
    c: u64,
) -> nat {
    occupied(
        filled(keys, rem, level, uniform(groups, candidate_seed(level, c)), group_size),
        g * group_size,
        group_size,
    )
}

/// The candidate, among the first `c + 1`, that places the most keys in
/// group `g`; the earliest of them on a tie.
pub open spec fn best_candidate(
    keys: Seq<Seq<u8>>,
    rem: Seq<usize>,
    level: u64,
    groups: nat,
    group_size: nat,
    g: int,
    c: u64,
) -> u64
    decreases c,
{
    if c == 0 {
        0
    } else {
        let b = best_candidate(keys, rem, level, groups, group_size, g, (c - 1) as u64);
        if score(keys, rem, level, groups, group_size, g, c) > score(
            keys,
            rem,
            level,
            groups,
            group_size,
            g,
            b,
        ) {
            c
        } else {
            b
        }
    }
}

/// The number of groups of a level over `r` unplaced keys.
pub open spec fn group_count_for(variant: PerfectHashingFunction, r: nat) -> nat {
    match variant {
        PerfectHashingFunction::Fmph => 1,
        PerfectHashingFunction::GoFmph => r / 8 + 1,
    }
}

/// The group size of a level over `r` unplaced keys. Either way a level
/// has about two slots per key.
pub open spec fn group_size_for(variant: PerfectHashingFunction, r: nat) -> nat {
    match variant {
        PerfectHashingFunction::Fmph => 2 * r,
        PerfectHashingFunction::GoFmph => GROUP_SLOTS as nat,
    }
}

/// The seeds of a level, one per group.
pub open spec fn seeds_for(
    variant: PerfectHashingFunction,
    keys: Seq<Seq<u8>>,
    rem: Seq<usize>,
    level: u64,
) -> Seq<u64> {
    let groups = group_count_for(variant, rem.len());
    let group_size = group_size_for(variant, rem.len());
    match variant {
        PerfectHashingFunction::Fmph => uniform(1, candidate_seed(level, 0)),
        PerfectHashingFunction::GoFmph => Seq::new(
            groups,
            |g: int|
                candidate_seed(
                    level,
                    best_candidate(
                        keys,
                        rem,
                        level,
                        groups,
                        group_size,
                        g,
                        (SEED_CANDIDATES - 1) as u64,
                    ),
                ),
        ),
    }
}

/// The mathematical model of one level.
pub struct LevelState {
    /// The seed of each group.
    pub seeds: Seq<u64>,
    /// The number of slots of each group.
    pub group_size: nat,
    /// The slots: empty, a collision, or an ordinal plus two.
    pub table: Seq<u64>,
}

impl LevelState {
    /// The level's invariant, for an index over `len` keys.
    pub open spec fn wf(self, len: nat) -> bool {
        &&& self.seeds.len() >= 1
        &&& self.group_size >= 1
        &&& self.table.len() == self.seeds.len() * self.group_size
        &&& self.table.len() <= MAX_TABLE
        &&& forall|p: int| 0 <= p < self.table.len() ==> #[trigger] self.table[p] < len + 2
    }

    /// The ordinal that the level has for a key, if the key's slot holds one.
    pub open spec fn lookup(self, level: u64, key: Seq<u8>) -> Option<usize> {
        let v = self.table[slot_of(key, level, self.seeds, self.group_size)];
        if v >= 2 {
            Some((v - 2) as usize)
        } else {
            None
        }
    }
}

/// The level that is built over the unplaced keys `rem`.
pub open spec fn level_for(
    variant: PerfectHashingFunction,
    keys: Seq<Seq<u8>>,
    rem: Seq<usize>,
    level: u64,
) -> LevelState {
    let seeds = seeds_for(variant, keys, rem, level);
    let group_size = group_size_for(variant, rem.len());
    LevelState { seeds, group_size, table: filled(keys, rem, level, seeds, group_size) }
}

/// The ordinal that the first level with an answer has for a key.
pub open spec fn probe(levels: Seq<LevelState>, key: Seq<u8>) -> Option<usize>
    decreases levels.len(),
{
    if levels.len() == 0 {
        None
    } else {
        match probe(levels.drop_last(), key) {
            Some(i) => Some(i),
            None => levels.last().lookup((levels.len() - 1) as u64, key),
        }
    }
}

/// The position of the first of `keys` that equals `key`.
pub open spec fn position(keys: Seq<Seq<u8>>, key: Seq<u8>) -> Option<int>
    decreases keys.len(),
{
    if keys.len() == 0 {
        None
    } else {
        match position(keys.drop_last(), key) {
            Some(k) => Some(k),
            None => if keys.last() == key {
                Some(keys.len() - 1)
            } else {
                None
            },
        }
    }
}

/// The levels that are built from `level` on over the unplaced keys `rem`,
/// and the ordinals that are still unplaced after the last level.
pub open spec fn cascade(
    variant: PerfectHashingFunction,
    keys: Seq<Seq<u8>>,
    rem: Seq<usize>,
    level: nat,
) -> (Seq<LevelState>, Seq<usize>)
    decreases MAX_LEVELS - level,
{
    if rem.len() == 0 || level >= MAX_LEVELS {
        (Seq::empty(), rem)
    } else {
        let lvl = level_for(variant, keys, rem, level as u64);
        let rest = survivors(keys, rem, level as u64, lvl.seeds, lvl.group_size, lvl.table);
        let (more, last) = cascade(variant, keys, rest, level + 1);
        (seq![lvl] + more, last)
    }
}

/// The ordinals `0, 1, .., n - 1`.
pub open spec fn ordinals(n: nat) -> Seq<usize> {
    Seq::new(n, |i: int| i as usize)
}

/// Whether two of the keys are equal.
pub open spec fn has_duplicates(keys: Seq<Seq<u8>>) -> bool {
    exists|i: int, j: int| 0 <= i < j < keys.len() && keys[i] == keys[j]
}

/// The mathematical model of a perfect hash index.
pub struct PhfState {
    /// The number of keys that the index was built over.
    pub len: nat,
    /// The levels, first level first.
    pub levels: Seq<LevelState>,
    /// The keys that no level placed.
    pub fallback_keys: Seq<Seq<u8>>,
    /// The ordinals of those keys.
    pub fallback_ordinals: Seq<usize>,
}

impl PhfState {
    /// The index's invariant.
    pub open spec fn wf(self) -> bool {
        &&& self.len <= MAX_KEYS
        &&& self.levels.len() <= MAX_LEVELS
        &&& forall|l: int| 0 <= l < self.levels.len() ==> (#[trigger] self.levels[l]).wf(self.len)
        &&& self.fallback_keys.len() == self.fallback_ordinals.len()
        &&& self.fallback_keys.len() <= self.len
        &&& forall|k: int|
            0 <= k < self.fallback_ordinals.len() ==> #[trigger] self.fallback_ordinals[k]
                < self.len
    }

    /// What `get` answers for a key: the ordinal from the first level that
    /// has one; else the ordinal of the equal key among those kept in full;
    /// else zero.
    pub open spec fn get(self, key: Seq<u8>) -> usize {
        match probe(self.levels, key) {
            Some(i) => i,
            None => match position(self.fallback_keys, key) {
                Some(k) => self.fallback_ordinals[k],
                None => 0,
            },
        }
    }

    /// Whether one of `keys` is answered with the ordinal `o`.
    pub open spec fn answers(self, keys: Seq<Seq<u8>>, o: int) -> bool {
        exists|i: int| 0 <= i < keys.len() && self.get(#[trigger] keys[i]) == o
    }

    /// The index that is built over `keys`.
    #[verifier::opaque]
    pub open spec fn built(variant: PerfectHashingFunction, keys: Seq<Seq<u8>>) -> PhfState {
        let (levels, rest) = cascade(variant, keys, ordinals(keys.len()), 0);
        PhfState {
            len: keys.len(),
            levels,
            fallback_keys: Seq::new(rest.len(), |k: int| keys[rest[k] as int]),
            fallback_ordinals: rest,
        }
    }
}

/// A key's slot lies within the table.
pub proof fn lemma_slot_in_range(key: Seq<u8>, level: u64, seeds: Seq<u64>, group_size: nat)
    requires
        seeds.len() >= 1,
        group_size >= 1,
    ensures
        0 <= slot_of(key, level, seeds, group_size) < seeds.len() * group_size,
        0 <= (hash_of(group_seed(level), key) as int) % (seeds.len() as int) < seeds.len(),
{
    let g = (hash_of(group_seed(level), key) as int) % (seeds.len() as int);
    let s = (hash_of(seeds[g], key) as int) % (group_size as int);
    lemma_cell_in_range(g, seeds.len() as int, s, group_size as int);
}

/// Cell `s` of group `g` lies within `groups * size` cells.
pub proof fn lemma_cell_in_range(g: int, groups: int, s: int, size: int)
    requires
        0 <= g < groups,
        0 <= s < size,
    ensures
        0 <= g * size + s < groups * size,
        0 <= g * size,
        g * size + size <= groups * size,
{
    assert(0 <= g * size && g * size + size <= groups * size) by (nonlinear_arith)
        requires
            0 <= g < groups,
            0 < size,
    ;
}

/// The table keeps its size while keys claim slots.
pub proof fn lemma_filled_len(
    keys: Seq<Seq<u8>>,
    rem: Seq<usize>,
    level: u64,
    seeds: Seq<u64>,
    group_size: nat,
)
    requires
        seeds.len() >= 1,
        group_size >= 1,
    ensures
        filled(keys, rem, level, seeds, group_size).len() == seeds.len() * group_size,
    decreases rem.len(),
{
    if rem.len() > 0 {
        lemma_filled_len(keys, rem.drop_last(), level, seeds, group_size);
        lemma_slot_in_range(keys[rem.last() as int], level, seeds, group_size);
    }
}

/// Every slot of the table is empty, a collision, or one of the ordinals
/// plus two.
pub proof fn lemma_filled_values(
    keys: Seq<Seq<u8>>,
    rem: Seq<usize>,
    level: u64,
    seeds: Seq<u64>,
    group_size: nat,
    len: nat,
    p: int,
)
    requires
        seeds.len() >= 1,
        group_size >= 1,
        len <= MAX_KEYS,
        forall|k: int| 0 <= k < rem.len() ==> #[trigger] rem[k] < len,
        0 <= p < seeds.len() * group_size,
    ensures
        filled(keys, rem, level, seeds, group_size)[p] < len + 2,
    decreases rem.len(),
{
    if rem.len() > 0 {
        let head = rem.drop_last();
        lemma_filled_len(keys, head, level, seeds, group_size);
        lemma_slot_in_range(keys[rem.last() as int], level, seeds, group_size);
        assert forall|k: int| 0 <= k < head.len() implies #[trigger] head[k] < len by {
            assert(head[k] == rem[k]);
        }
        lemma_filled_values(keys, head, level, seeds, group_size, len, p);
        assert(rem.last() == rem[rem.len() - 1]);
    }
}

/// The slot of a key that claimed one holds the key's ordinal plus two, or
/// a collision.
pub proof fn lemma_filled_claim(
    keys: Seq<Seq<u8>>,
    rem: Seq<usize>,
    level: u64,
    seeds: Seq<u64>,
    group_size: nat,
    k: int,
)
    requires
        seeds.len() >= 1,
        group_size >= 1,
        0 <= k < rem.len(),
        forall|a: int| 0 <= a < rem.len() ==> #[trigger] rem[a] < MAX_KEYS,
    ensures
        ({
            let v = filled(keys, rem, level, seeds, group_size)[slot_of(
                keys[rem[k] as int],
                level,
                seeds,
                group_size,
            )];
            v == rem[k] + 2 || v == COLLISION
        }),
    decreases rem.len(),
{
    let last = rem.last();
    let before = filled(keys, rem.drop_last(), level, seeds, group_size);
    let p = slot_of(keys[last as int], level, seeds, group_size);
    let q = slot_of(keys[rem[k] as int], level, seeds, group_size);
    lemma_filled_len(keys, rem.drop_last(), level, seeds, group_size);
    lemma_slot_in_range(keys[last as int], level, seeds, group_size);
    lemma_slot_in_range(keys[rem[k] as int], level, seeds, group_size);
    assert(last == rem[rem.len() - 1]);
    if k < rem.len() - 1 {
        assert(rem.drop_last()[k] == rem[k]);
        assert forall|a: int| 0 <= a < rem.drop_last().len() implies #[trigger] rem.drop_last()[a]
            < MAX_KEYS by {
            assert(rem.drop_last()[a] == rem[a]);
        }
        lemma_filled_claim(keys, rem.drop_last(), level, seeds, group_size, k);
    }
}

/// The survivors of a level are the ordinals whose slot does not hold
/// them, in their old order.
pub proof fn lemma_survivors(
    keys: Seq<Seq<u8>>,
    rem: Seq<usize>,
    level: u64,
    seeds: Seq<u64>,
    group_size: nat,
    table: Seq<u64>,
)
    requires
        forall|a: int, b: int| 0 <= a < b < rem.len() ==> rem[a] < rem[b],
    ensures
        ({
            let rest = survivors(keys, rem, level, seeds, group_size, table);
            &&& rest.len() <= rem.len()
            &&& forall|a: int, b: int| 0 <= a < b < rest.len() ==> rest[a] < rest[b]
            &&& forall|j: usize|
                rest.contains(j) <==> rem.contains(j) && table[slot_of(
                    keys[j as int],
                    level,
                    seeds,
                    group_size,
                )] != j + 2
        }),
    decreases rem.len(),
{
    let rest = survivors(keys, rem, level, seeds, group_size, table);
    if rem.len() > 0 {
        let head = rem.drop_last();
        let last = rem.last();
        let before = survivors(keys, head, level, seeds, group_size, table);
        lemma_survivors(keys, head, level, seeds, group_size, table);
        assert forall|j: usize| rem.contains(j) <==> head.contains(j) || j == last by {
            if rem.contains(j) {
                let a = choose|a: int| 0 <= a < rem.len() && rem[a] == j;
                if a < rem.len() - 1 {
                    assert(head[a] == j);
                }
            }
            if head.contains(j) {
                let a = choose|a: int| 0 <= a < head.len() && head[a] == j;
                assert(rem[a] == j);
            }
            if j == last {
                assert(rem[rem.len() - 1] == j);
            }
        }
        assert forall|a: int| 0 <= a < before.len() implies #[trigger] before[a] < last by {
            assert(before.contains(before[a]));
            let b = choose|b: int| 0 <= b < head.len() && head[b] == before[a];
            assert(rem[b] < rem[rem.len() - 1]);
        }
        assert(!head.contains(last)) by {
            if head.contains(last) {
                let b = choose|b: int| 0 <= b < head.len() && head[b] == last;
                assert(rem[b] < rem[rem.len() - 1]);
            }
        }
        if table[slot_of(keys[last as int], level, seeds, group_size)] == last + 2 {
            assert(rest == before);
        } else {
            assert(rest == before.push(last));
            assert forall|j: usize| rest.contains(j) <==> before.contains(j) || j == last by {
                if rest.contains(j) {
                    let a = choose|a: int| 0 <= a < rest.len() && rest[a] == j;
                    if a < before.len() {
                        assert(before[a] == j);
                    }
                }
                if before.contains(j) {
                    let a = choose|a: int| 0 <= a < before.len() && before[a] == j;
                    assert(rest[a] == j);
                }
                if j == last {
                    assert(rest[rest.len() - 1] == j);
                }
            }
        }
    }
}

/// Probing one more level: an answer of the earlier levels stands, and
/// without one the new level is asked.
pub proof fn lemma_probe_push(levels: Seq<LevelState>, lvl: LevelState, key: Seq<u8>)
    ensures
        probe(levels.push(lvl), key) == match probe(levels, key) {
            Some(i) => Some(i),
            None => lvl.lookup(levels.len() as u64, key),
        },
{
    assert(levels.push(lvl).drop_last() =~= levels);
}

/// An answer of the levels lies within the key set.
pub proof fn lemma_probe_in_range(levels: Seq<LevelState>, len: nat, key: Seq<u8>)
    requires
        forall|l: int| 0 <= l < levels.len() ==> (#[trigger] levels[l]).wf(len),
        probe(levels, key) is Some,
    ensures
        probe(levels, key)->0 < len,
    decreases levels.len(),
{
    if levels.len() > 0 {
        let head = levels.drop_last();
        assert forall|l: int| 0 <= l < head.len() implies (#[trigger] head[l]).wf(len) by {
            assert(head[l] == levels[l]);
        }
        if probe(head, key) is Some {
            lemma_probe_in_range(head, len, key);
        } else {
            let lvl = levels.last();
            assert(lvl == levels[levels.len() - 1]);
            lemma_slot_in_range(key, (levels.len() - 1) as u64, lvl.seeds, lvl.group_size);
        }
    }
}

/// A lookup stays within the key set: a non-empty index answers every key,
/// member or not, with an ordinal below its length.
pub proof fn lemma_get_in_range(st: PhfState, key: Seq<u8>)
    requires
        st.wf(),
        st.len > 0,
    ensures
        st.get(key) < st.len,
{
    if probe(st.levels, key) is Some {
        lemma_probe_in_range(st.levels, st.len, key);
    } else {
        lemma_position(st.fallback_keys, key);
    }
}

/// The position of a key among keys, if it has one, is the first place
/// where an equal key stands.
pub proof fn lemma_position(keys: Seq<Seq<u8>>, key: Seq<u8>)
    ensures
        match position(keys, key) {
            Some(k) => 0 <= k < keys.len() && keys[k] == key && forall|a: int|
                0 <= a < k ==> keys[a] != key,
            None => forall|a: int| 0 <= a < keys.len() ==> keys[a] != key,
        },
    decreases keys.len(),
{
    if keys.len() > 0 {
        lemma_position(keys.drop_last(), key);
        assert forall|a: int| 0 <= a < keys.len() - 1 implies keys.drop_last()[a] == keys[a] by {}
    }
}

/// One level of the index.
#[derive(Debug)]
pub struct Level {
    seeds: Vec<u64>,
    group_size: usize,
    table: Vec<u64>,
}

impl View for Level {
    type V = LevelState;

    closed spec fn view(&self) -> LevelState {
        LevelState { seeds: self.seeds@, group_size: self.group_size as nat, table: self.table@ }
    }
}

/// The models of the levels that a vector holds.
pub open spec fn level_views(levels: Seq<Level>) -> Seq<LevelState> {
    Seq::new(levels.len(), |i: int| levels[i]@)
}

/// A perfect hash index over a fixed set of byte-string keys.
#[derive(Debug)]
pub struct PerfectHash {
    len: usize,
    levels: Vec<Level>,
    fallback_keys: Vec<Vec<u8>>,
    fallback_ordinals: Vec<usize>,
}

impl View for PerfectHash {
    type V = PhfState;

    closed spec fn view(&self) -> PhfState {
        PhfState {
            len: self.len as nat,
            levels: level_views(self.levels@),
            fallback_keys: byte_rows(self.fallback_keys@),
            fallback_ordinals: self.fallback_ordinals@,
        }
    }
}

/// The `c`-th candidate seed of a level.
fn candidate(level: u64, c: u64) -> (seed: u64)
    requires
        level <= MAX_LEVELS,
        c < 8,
    ensures
        seed == candidate_seed(level, c),
{
    mix(SLOT_SEED ^ (level * 8 + c))
}

/// The slot that a key reaches on a level.
fn slot(key: &[u8], level: u64, seeds: &Vec<u64>, group_size: usize) -> (p: usize)
    requires
        seeds@.len() >= 1,
        group_size >= 1,
        seeds@.len() * group_size <= usize::MAX,
    ensures
        p == slot_of(key@, level, seeds@, group_size as nat),
        p < seeds@.len() * group_size,
{
    proof {
        lemma_slot_in_range(key@, level, seeds@, group_size as nat);
    }
    let g: usize = if seeds.len() == 1 {
        0
    } else {
        (hash(mix(GROUP_SEED ^ level), key) % (seeds.len() as u64)) as usize
    };
    let s: usize = (hash(seeds[g], key) % (group_size as u64)) as usize;
    proof {
        lemma_cell_in_range(g as int, seeds@.len() as int, s as int, group_size as int);
    }
    g * group_size + s
}

/// The table of a level after the unplaced keys have claimed their slots.
fn fill_table(
    keys: &Vec<Vec<u8>>,
    rem: &Vec<usize>,
    level: u64,
    seeds: &Vec<u64>,
    group_size: usize,
) -> (table: Vec<u64>)
    requires
        seeds@.len() >= 1,
        group_size >= 1,
        seeds@.len() * group_size <= usize::MAX,
        keys@.len() <= MAX_KEYS,
        forall|k: int| 0 <= k < rem@.len() ==> #[trigger] rem@[k] < keys@.len(),
    ensures
        table@ == filled(byte_rows(keys@), rem@, level, seeds@, group_size as nat),
        table@.len() == seeds@.len() * group_size,
{
    let size: usize = seeds.len() * group_size;
    let mut table: Vec<u64> = Vec::new();
    let mut i: usize = 0;
    while i < size
        invariant
            i <= size,
            table@.len() == i,
            forall|k: int| 0 <= k < i ==> table@[k] == EMPTY,
        decreases size - i,
    {
        table.push(EMPTY);
        i += 1;
    }
    proof {
        assert(rem@.take(0).len() == 0);
        assert(table@ =~= filled(
            byte_rows(keys@),
            rem@.take(0),
            level,
            seeds@,
            group_size as nat,
        ));
    }
    let mut k: usize = 0;
    while k < rem.len()
        invariant
            k <= rem@.len(),
            seeds@.len() >= 1,
            group_size >= 1,
            size == seeds@.len() * group_size,
            keys@.len() <= MAX_KEYS,
            forall|a: int| 0 <= a < rem@.len() ==> #[trigger] rem@[a] < keys@.len(),
            table@.len() == size,
            table@ == filled(byte_rows(keys@), rem@.take(k as int), level, seeds@, group_size as nat),
        decreases rem@.len() - k,
    {
        let j: usize = rem[k];
        let p: usize = slot(keys[j].as_slice(), level, seeds, group_size);
        proof {
            assert(rem@.take(k + 1).drop_last() =~= rem@.take(k as int));
            assert(rem@.take(k + 1).last() == j);
            assert(byte_rows(keys@)[j as int] == keys@[j as int]@);
        }
        if table[p] == EMPTY {
            table[p] = j as u64 + 2;
        } else {
            table[p] = COLLISION;
        }
        k += 1;
    }
    proof {
        assert(rem@.take(k as int) =~= rem@);
    }
    table
}

/// The unplaced keys that did not get a slot of their own.
fn keep_survivors(
    keys: &Vec<Vec<u8>>,
    rem: &Vec<usize>,
    level: u64,
    seeds: &Vec<u64>,
    group_size: usize,
    table: &Vec<u64>,
) -> (rest: Vec<usize>)
    requires
        seeds@.len() >= 1,
        group_size >= 1,
        table@.len() == seeds@.len() * group_size,
        keys@.len() <= MAX_KEYS,
        forall|k: int| 0 <= k < rem@.len() ==> #[trigger] rem@[k] < keys@.len(),
    ensures
        rest@ == survivors(byte_rows(keys@), rem@, level, seeds@, group_size as nat, table@),
{
    let mut rest: Vec<usize> = Vec::new();
    let mut k: usize = 0;
    proof {
        assert(rem@.take(0).len() == 0);
        assert(table@.len() == table.len());
    }
    while k < rem.len()
        invariant
            k <= rem@.len(),
            seeds@.len() >= 1,
            group_size >= 1,
            table@.len() <= usize::MAX,
            table@.len() == seeds@.len() * group_size,
            keys@.len() <= MAX_KEYS,
            forall|a: int| 0 <= a < rem@.len() ==> #[trigger] rem@[a] < keys@.len(),
            rest@ == survivors(
                byte_rows(keys@),
                rem@.take(k as int),
                level,
                seeds@,
                group_size as nat,
                table@,
            ),
        decreases rem@.len() - k,
    {
        let j: usize = rem[k];
        let p: usize = slot(keys[j].as_slice(), level, seeds, group_size);
        proof {
            assert(rem@.take(k + 1).drop_last() =~= rem@.take(k as int));
            assert(rem@.take(k + 1).last() == j);
            assert(byte_rows(keys@)[j as int] == keys@[j as int]@);
        }
        if table[p] != j as u64 + 2 {
            rest.push(j);
        }
        k += 1;
    }
    proof {
        assert(rem@.take(k as int) =~= rem@);
    }
    rest
}

/// The number of slots among `count` slots from `start` that hold an ordinal.
fn count_occupied(table: &Vec<u64>, start: usize, count: usize) -> (n: usize)
    requires
        start + count <= table@.len(),
    ensures
        n == occupied(table@, start as int, count as nat),
        n <= count,
{
    let mut n: usize = 0;
    let mut k: usize = 0;
    proof {
        assert(table@.len() == table.len());
    }
    while k < count
        invariant
            k <= count,
            table@.len() <= usize::MAX,
            start + count <= table@.len(),
            n == occupied(table@, start as int, k as nat),
            n <= k,
        decreases count - k,
    {
        if table[start + k] >= 2 {
            n += 1;
        }
        k += 1;
    }
    n
}

/// A vector that holds `value` `n` times.
fn repeated(n: usize, value: u64) -> (v: Vec<u64>)
    ensures
        v@ == uniform(n as nat, value),
{
    let mut v: Vec<u64> = Vec::new();
    let mut i: usize = 0;
    while i < n
        invariant
            i <= n,
            v@.len() == i,
            forall|k: int| 0 <= k < i ==> v@[k] == value,
        decreases n - i,
    {
        v.push(value);
        i += 1;
    }
    proof {
        assert(v@ =~= uniform(n as nat, value));
    }
    v
}

/// The seeds of the level that is built over the unplaced keys `rem`.
fn choose_seeds(
    variant: PerfectHashingFunction,
    keys: &Vec<Vec<u8>>,
    rem: &Vec<usize>,
    level: u64,
) -> (seeds: Vec<u64>)
    requires
        level < MAX_LEVELS,
        keys@.len() <= MAX_KEYS,
        rem@.len() <= MAX_KEYS,
        forall|k: int| 0 <= k < rem@.len() ==> #[trigger] rem@[k] < keys@.len(),
    ensures
        seeds@ == seeds_for(variant, byte_rows(keys@), rem@, level),
        seeds@.len() == group_count_for(variant, rem@.len()),
{
    match variant {
        PerfectHashingFunction::Fmph => repeated(1, candidate(level, 0)),
        PerfectHashingFunction::GoFmph => {
            let groups: usize = rem.len() / 8 + 1;
            let ghost ks = byte_rows(keys@);
            let mut best: Vec<u64> = repeated(groups, 0);
            let mut best_score: Vec<usize> = Vec::new();
            let mut c: u64 = 0;
            while c < SEED_CANDIDATES
                invariant
                    c <= SEED_CANDIDATES,
                    level < MAX_LEVELS,
                    groups == rem@.len() / 8 + 1,
                    rem@.len() <= MAX_KEYS,
                    keys@.len() <= MAX_KEYS,
                    ks == byte_rows(keys@),
                    forall|k: int| 0 <= k < rem@.len() ==> #[trigger] rem@[k] < keys@.len(),
                    best@.len() == groups,
                    forall|h: int| 0 <= h < groups ==> #[trigger] best@[h] < SEED_CANDIDATES,
                    c > 0 ==> best_score@.len() == groups,
                    c > 0 ==> forall|g: int|
                        0 <= g < groups ==> #[trigger] best@[g] == best_candidate(
                            ks,
                            rem@,
                            level,
                            groups as nat,
                            GROUP_SLOTS as nat,
                            g,
                            (c - 1) as u64,
                        ),
                    c > 0 ==> forall|g: int|
                        0 <= g < groups ==> #[trigger] best_score@[g] == score(
                            ks,
                            rem@,
                            level,
                            groups as nat,
                            GROUP_SLOTS as nat,
                            g,
                            best@[g],
                        ),
                decreases SEED_CANDIDATES - c,
            {
                let trial: Vec<u64> = repeated(groups, candidate(level, c));
                let table = fill_table(keys, rem, level, &trial, GROUP_SLOTS);
                let mut next_score: Vec<usize> = Vec::new();
                let mut g: usize = 0;
                proof {
                    assert(table@.len() == table.len());
                }
                while g < groups
                    invariant
                        g <= groups,
                        c < SEED_CANDIDATES,
                        groups * GROUP_SLOTS <= usize::MAX,
                        forall|h: int| 0 <= h < groups ==> #[trigger] best@[h] < SEED_CANDIDATES,
                        best@.len() == groups,
                        next_score@.len() == g,
                        c > 0 ==> best_score@.len() == groups,
                        table@.len() == groups * GROUP_SLOTS,
                        table@ == filled(
                            ks,
                            rem@,
                            level,
                            uniform(groups as nat, candidate_seed(level, c)),
                            GROUP_SLOTS as nat,
                        ),
                        c > 0 ==> forall|h: int|
                            g <= h < groups ==> #[trigger] best@[h] == best_candidate(
                                ks,
                                rem@,
                                level,
                                groups as nat,
                                GROUP_SLOTS as nat,
                                h,
                                (c - 1) as u64,
                            ),
                        c > 0 ==> forall|h: int|
                            g <= h < groups ==> #[trigger] best_score@[h] == score(
                                ks,
                                rem@,
                                level,
                                groups as nat,
                                GROUP_SLOTS as nat,
                                h,
                                best@[h],
                            ),
                        forall|h: int|
                            0 <= h < g ==> #[trigger] best@[h] == best_candidate(
                                ks,
                                rem@,
                                level,
                                groups as nat,
                                GROUP_SLOTS as nat,
                                h,
                                c,
                            ),
                        forall|h: int|
                            0 <= h < g ==> #[trigger] next_score@[h] == score(
                                ks,
                                rem@,
                                level,
                                groups as nat,
                                GROUP_SLOTS as nat,
                                h,
                                best@[h],
                            ),
                    decreases groups - g,
                {
                    proof {
                        lemma_cell_in_range(g as int, groups as int, 0, GROUP_SLOTS as int);
                    }
                    let found: usize = count_occupied(&table, g * GROUP_SLOTS, GROUP_SLOTS);
                    if c == 0 {
                        best[g] = 0;
                        next_score.push(found);
                    } else if found > best_score[g] {
                        best[g] = c;
                        next_score.push(found);
                    } else {
                        next_score.push(best_score[g]);
                    }
                    g += 1;
                }
                best_score = next_score;
                c += 1;
            }
            let mut seeds: Vec<u64> = Vec::new();
            let mut g: usize = 0;
            while g < groups
                invariant
                    g <= groups,
                    level < MAX_LEVELS,
                    best@.len() == groups,
                    seeds@.len() == g,
                    forall|h: int|
                        0 <= h < groups ==> #[trigger] best@[h] == best_candidate(
                            ks,
                            rem@,
                            level,
                            groups as nat,
                            GROUP_SLOTS as nat,
                            h,
                            (SEED_CANDIDATES - 1) as u64,
                        ),
                    forall|h: int| 0 <= h < groups ==> #[trigger] best@[h] < SEED_CANDIDATES,
                    forall|h: int|
                        0 <= h < g ==> #[trigger] seeds@[h] == candidate_seed(level, best@[h]),
                decreases groups - g,
            {
                seeds.push(candidate(level, best[g]));
                g += 1;
            }
            proof {
                assert(seeds@ =~= seeds_for(variant, ks, rem@, level));
            }
            seeds
        },
    }
}

/// Whether the levels treat the key with ordinal `i` as they should while
/// the ordinals `rem` are unplaced: an unplaced key falls through every
/// level, and a placed key is answered with its own ordinal.
pub open spec fn resolved(
    levels: Seq<LevelState>,
    rem: Seq<usize>,
    keys: Seq<Seq<u8>>,
    i: int,
) -> bool {
    if rem.contains(i as usize) {
        probe(levels, keys[i]) is None
    } else {
        probe(levels, keys[i]) == Some(i as usize)
    }
}

/// Whether the ordinals grow strictly.
pub open spec fn increasing(rem: Seq<usize>) -> bool {
    forall|a: int, b: int| 0 <= a < b < rem.len() ==> rem[a] < rem[b]
}

/// The level that is built over unplaced keys is well formed.
pub proof fn lemma_level_wf(
    variant: PerfectHashingFunction,
    keys: Seq<Seq<u8>>,
    rem: Seq<usize>,
    level: u64,
)
    requires
        keys.len() <= MAX_KEYS,
        rem.len() > 0,
        rem.len() <= keys.len(),
        forall|k: int| 0 <= k < rem.len() ==> #[trigger] rem[k] < keys.len(),
    ensures
        level_for(variant, keys, rem, level).wf(keys.len()),
{
    let lvl = level_for(variant, keys, rem, level);
    let r = rem.len();
    assert(lvl.seeds.len() == group_count_for(variant, r));
    assert(lvl.group_size == group_size_for(variant, r));
    lemma_filled_len(keys, rem, level, lvl.seeds, lvl.group_size);
    match variant {
        PerfectHashingFunction::Fmph => {
            assert(lvl.seeds.len() * lvl.group_size == 2 * r);
        },
        PerfectHashingFunction::GoFmph => {
            assert(lvl.seeds.len() * lvl.group_size == (r / 8 + 1) * 16);
        },
    }
    assert(lvl.table.len() <= MAX_TABLE);
    assert forall|p: int| 0 <= p < lvl.table.len() implies #[trigger] lvl.table[p] < keys.len()
        + 2 by {
        lemma_filled_values(keys, rem, level, lvl.seeds, lvl.group_size, keys.len(), p);
    }
}

/// One more level keeps every key resolved: the keys that the level places
/// are answered by it, and the others fall through it.
pub proof fn lemma_level_step(
    variant: PerfectHashingFunction,
    keys: Seq<Seq<u8>>,
    levels: Seq<LevelState>,
    rem: Seq<usize>,
    level: u64,
)
    requires
        keys.len() <= MAX_KEYS,
        level == levels.len(),
        level < MAX_LEVELS,
        rem.len() > 0,
        rem.len() <= keys.len(),
        increasing(rem),
        forall|k: int| 0 <= k < rem.len() ==> #[trigger] rem[k] < keys.len(),
        forall|i: int| 0 <= i < keys.len() ==> #[trigger] resolved(levels, rem, keys, i),
    ensures
        ({
            let lvl = level_for(variant, keys, rem, level);
            let rest = survivors(keys, rem, level, lvl.seeds, lvl.group_size, lvl.table);
            &&& lvl.wf(keys.len())
            &&& increasing(rest)
            &&& rest.len() <= rem.len()
            &&& forall|k: int| 0 <= k < rest.len() ==> #[trigger] rest[k] < keys.len()
            &&& forall|i: int|
                0 <= i < keys.len() ==> #[trigger] resolved(levels.push(lvl), rest, keys, i)
        }),
{
    let lvl = level_for(variant, keys, rem, level);
    let rest = survivors(keys, rem, level, lvl.seeds, lvl.group_size, lvl.table);
    lemma_level_wf(variant, keys, rem, level);
    lemma_survivors(keys, rem, level, lvl.seeds, lvl.group_size, lvl.table);
    assert forall|k: int| 0 <= k < rest.len() implies #[trigger] rest[k] < keys.len() by {
        assert(rest.contains(rest[k]));
        let a = choose|a: int| 0 <= a < rem.len() && rem[a] == rest[k];
        assert(rem[a] < keys.len());
    }
    assert forall|i: int| 0 <= i < keys.len() implies #[trigger] resolved(
        levels.push(lvl),
        rest,
        keys,
        i,
    ) by {
        assert(resolved(levels, rem, keys, i));
        lemma_probe_push(levels, lvl, keys[i]);
        if rem.contains(i as usize) {
            let k = choose|k: int| 0 <= k < rem.len() && rem[k] == i as usize;
            lemma_filled_claim(keys, rem, level, lvl.seeds, lvl.group_size, k);
        }
    }
}

/// One turn of the build: the level over the unplaced keys and the keys
/// that it leaves unplaced carry every fact that the build relies on.
pub proof fn lemma_build_step(
    variant: PerfectHashingFunction,
    keys: Seq<Seq<u8>>,
    levels: Seq<LevelState>,
    rem: Seq<usize>,
    level: nat,
)
    requires
        keys.len() <= MAX_KEYS,
        level == levels.len(),
        level < MAX_LEVELS,
        rem.len() > 0,
        rem.len() <= keys.len(),
        increasing(rem),
        forall|k: int| 0 <= k < rem.len() ==> #[trigger] rem[k] < keys.len(),
        forall|l: int| 0 <= l < levels.len() ==> (#[trigger] levels[l]).wf(keys.len()),
        forall|i: int| 0 <= i < keys.len() ==> #[trigger] resolved(levels, rem, keys, i),
    ensures
        ({
            let lvl = level_for(variant, keys, rem, level as u64);
            let rest = survivors(keys, rem, level as u64, lvl.seeds, lvl.group_size, lvl.table);
            let next = levels.push(lvl);
            let here = cascade(variant, keys, rem, level);
            let there = cascade(variant, keys, rest, level + 1);
            &&& increasing(rest)
            &&& rest.len() <= keys.len()
            &&& forall|k: int| 0 <= k < rest.len() ==> #[trigger] rest[k] < keys.len()
            &&& forall|l: int| 0 <= l < next.len() ==> (#[trigger] next[l]).wf(keys.len())
            &&& forall|i: int| 0 <= i < keys.len() ==> #[trigger] resolved(next, rest, keys, i)
            &&& levels + here.0 == next + there.0
            &&& here.1 == there.1
        }),
{
    let lvl = level_for(variant, keys, rem, level as u64);
    let rest = survivors(keys, rem, level as u64, lvl.seeds, lvl.group_size, lvl.table);
    let next = levels.push(lvl);
    let here = cascade(variant, keys, rem, level);
    let there = cascade(variant, keys, rest, level + 1);
    lemma_level_step(variant, keys, levels, rem, level as u64);
    assert forall|l: int| 0 <= l < next.len() implies (#[trigger] next[l]).wf(keys.len()) by {
        if l < levels.len() {
            assert(next[l] == levels[l]);
        }
    }
    assert(here == (seq![lvl] + there.0, there.1));
    assert(levels + here.0 =~= next + there.0);
}

/// An answer that a prefix of the levels gives is the answer of all levels.
pub proof fn lemma_probe_prefix(levels: Seq<LevelState>, m: int, key: Seq<u8>)
    requires
        0 <= m <= levels.len(),
        probe(levels.take(m), key) is Some,
    ensures
        probe(levels, key) == probe(levels.take(m), key),
    decreases levels.len() - m,
{
    if m < levels.len() {
        assert(levels.take(m + 1).drop_last() =~= levels.take(m));
        lemma_probe_prefix(levels, m + 1, key);
    } else {
        assert(levels.take(m) =~= levels);
    }
}

/// A position that a prefix of the keys gives is the position among all keys.
pub proof fn lemma_position_prefix(keys: Seq<Seq<u8>>, m: int, key: Seq<u8>)
    requires
        0 <= m <= keys.len(),
        position(keys.take(m), key) is Some,
    ensures
        position(keys, key) == position(keys.take(m), key),
    decreases keys.len() - m,
{
    if m < keys.len() {
        assert(keys.take(m + 1).drop_last() =~= keys.take(m));
        lemma_position_prefix(keys, m + 1, key);
    } else {
        assert(keys.take(m) =~= keys);
    }
}

/// Whether the keys kept in full are the keys of their ordinals, pairwise
/// different, and every key is resolved.
pub open spec fn settled(st: PhfState, keys: Seq<Seq<u8>>) -> bool {
    &&& st.len == keys.len()
    &&& keys.len() <= MAX_KEYS
    &&& st.fallback_keys.len() == st.fallback_ordinals.len()
    &&& forall|k: int|
        0 <= k < st.fallback_ordinals.len() ==> #[trigger] st.fallback_ordinals[k] < keys.len()
    &&& forall|k: int|
        0 <= k < st.fallback_keys.len() ==> #[trigger] st.fallback_keys[k]
            == keys[st.fallback_ordinals[k] as int]
    &&& forall|a: int, b: int|
        0 <= a < b < st.fallback_keys.len() ==> st.fallback_keys[a] != st.fallback_keys[b]
    &&& forall|i: int|
        0 <= i < keys.len() ==> #[trigger] resolved(st.levels, st.fallback_ordinals, keys, i)
}

/// Two keys of a settled index are different.
pub proof fn lemma_settled_distinct(st: PhfState, keys: Seq<Seq<u8>>, i: int, j: int)
    requires
        settled(st, keys),
        0 <= i < j < keys.len(),
    ensures
        keys[i] != keys[j],
{
    let rem = st.fallback_ordinals;
    assert(resolved(st.levels, rem, keys, i));
    assert(resolved(st.levels, rem, keys, j));
    if keys[i] == keys[j] {
        if rem.contains(i as usize) && rem.contains(j as usize) {
            let a = choose|a: int| 0 <= a < rem.len() && rem[a] == i as usize;
            let b = choose|b: int| 0 <= b < rem.len() && rem[b] == j as usize;
            assert(st.fallback_keys[a] == keys[rem[a] as int]);
            assert(st.fallback_keys[b] == keys[rem[b] as int]);
            assert(a != b);
            if a < b {
                assert(st.fallback_keys[a] != st.fallback_keys[b]);
            } else {
                assert(st.fallback_keys[b] != st.fallback_keys[a]);
            }
        } else if rem.contains(i as usize) {
            assert(probe(st.levels, keys[i]) is None);
            assert(probe(st.levels, keys[j]) is Some);
        } else if rem.contains(j as usize) {
            assert(probe(st.levels, keys[j]) is None);
            assert(probe(st.levels, keys[i]) is Some);
        } else {
            assert(probe(st.levels, keys[i]) == Some(i as usize));
            assert(probe(st.levels, keys[j]) == Some(j as usize));
            assert(i as usize != j as usize);
        }
    }
}

/// A key of a settled index is answered with its ordinal.
pub proof fn lemma_settled_get(st: PhfState, keys: Seq<Seq<u8>>, i: int)
    requires
        settled(st, keys),
        0 <= i < keys.len(),
    ensures
        st.get(keys[i]) == i,
{
    let rem = st.fallback_ordinals;
    assert(resolved(st.levels, rem, keys, i));
    if rem.contains(i as usize) {
        let a = choose|a: int| 0 <= a < rem.len() && rem[a] == i as usize;
        assert(st.fallback_keys[a] == keys[rem[a] as int]);
        lemma_position(st.fallback_keys, keys[i]);
        let k = position(st.fallback_keys, keys[i])->0;
        let o = rem[k] as int;
        assert(st.fallback_keys[k] == keys[o]);
        assert(rem[k] < keys.len());
        if o < i {
            lemma_settled_distinct(st, keys, o, i);
        } else if i < o {
            lemma_settled_distinct(st, keys, i, o);
        }
    }
}

/// A settled index is perfect: its keys are pairwise different and each is
/// answered with its own ordinal.
pub proof fn lemma_settled_is_perfect(st: PhfState, keys: Seq<Seq<u8>>)
    requires
        settled(st, keys),
    ensures
        !has_duplicates(keys),
        forall|i: int| 0 <= i < keys.len() ==> st.get(#[trigger] keys[i]) == i,
{
    assert forall|i: int, j: int| 0 <= i < j < keys.len() implies keys[i] != keys[j] by {
        lemma_settled_distinct(st, keys, i, j);
    }
    assert forall|i: int| 0 <= i < keys.len() implies st.get(#[trigger] keys[i]) == i by {
        lemma_settled_get(st, keys, i);
    }
}

/// Building the remaining levels keeps every key resolved and every level
/// well formed.
pub proof fn lemma_cascade(
    variant: PerfectHashingFunction,
    keys: Seq<Seq<u8>>,
    before: Seq<LevelState>,
    rem: Seq<usize>,
    level: nat,
)
    requires
        keys.len() <= MAX_KEYS,
        level == before.len(),
        level <= MAX_LEVELS,
        rem.len() <= keys.len(),
        increasing(rem),
        forall|k: int| 0 <= k < rem.len() ==> #[trigger] rem[k] < keys.len(),
        forall|l: int| 0 <= l < before.len() ==> (#[trigger] before[l]).wf(keys.len()),
        forall|i: int| 0 <= i < keys.len() ==> #[trigger] resolved(before, rem, keys, i),
    ensures
        ({
            let (more, last) = cascade(variant, keys, rem, level);
            let all = before + more;
            &&& all.len() <= MAX_LEVELS
            &&& forall|l: int| 0 <= l < all.len() ==> (#[trigger] all[l]).wf(keys.len())
            &&& last.len() <= keys.len()
            &&& increasing(last)
            &&& forall|k: int| 0 <= k < last.len() ==> #[trigger] last[k] < keys.len()
            &&& forall|i: int| 0 <= i < keys.len() ==> #[trigger] resolved(all, last, keys, i)
        }),
    decreases MAX_LEVELS - level,
{
    let (more, last) = cascade(variant, keys, rem, level);
    if rem.len() == 0 || level >= MAX_LEVELS {
        assert(before + more =~= before);
    } else {
        let lvl = level_for(variant, keys, rem, level as u64);
        let rest = survivors(keys, rem, level as u64, lvl.seeds, lvl.group_size, lvl.table);
        lemma_level_step(variant, keys, before, rem, level as u64);
        let next = before.push(lvl);
        assert forall|l: int| 0 <= l < next.len() implies (#[trigger] next[l]).wf(keys.len()) by {
            if l < before.len() {
                assert(next[l] == before[l]);
            }
        }
        lemma_cascade(variant, keys, next, rest, level + 1);
        let tail = cascade(variant, keys, rest, level + 1);
        assert(before + more =~= next + tail.0);
    }
}

/// The perfect hash is a bijection: over a set of pairwise different keys
/// the built index answers each key with its own position, so the answers
/// are exactly the numbers below the size of the set, each given once.
pub proof fn lemma_built_is_bijection(variant: PerfectHashingFunction, keys: Seq<Seq<u8>>)
    requires
        keys.len() <= MAX_KEYS,
        !has_duplicates(keys),
    ensures
        PhfState::built(variant, keys).wf(),
        PhfState::built(variant, keys).len == keys.len(),
        forall|i: int|
            0 <= i < keys.len() ==> PhfState::built(variant, keys).get(#[trigger] keys[i]) == i,
        forall|i: int, j: int|
            0 <= i < keys.len() && 0 <= j < keys.len() && i != j ==> PhfState::built(
                variant,
                keys,
            ).get(keys[i]) != PhfState::built(variant, keys).get(keys[j]),
        forall|o: int|
            0 <= o < keys.len() ==> #[trigger] PhfState::built(variant, keys).answers(keys, o),
{
    reveal(PhfState::built);
    let st = PhfState::built(variant, keys);
    let start = ordinals(keys.len());
    let none = Seq::<LevelState>::empty();
    assert forall|i: int| 0 <= i < keys.len() implies #[trigger] resolved(none, start, keys, i) by {
        assert(start[i] == i as usize);
    }
    lemma_cascade(variant, keys, none, start, 0);
    assert(none + st.levels =~= st.levels);
    assert forall|a: int, b: int| 0 <= a < b < st.fallback_keys.len() implies st.fallback_keys[a]
        != st.fallback_keys[b] by {
        let i = st.fallback_ordinals[a] as int;
        let j = st.fallback_ordinals[b] as int;
        assert(st.fallback_ordinals[a] < keys.len());
        assert(st.fallback_ordinals[b] < keys.len());
        assert(i < j);
    }
    assert(settled(st, keys));
    lemma_settled_is_perfect(st, keys);
    assert forall|o: int| 0 <= o < keys.len() implies #[trigger] st.answers(keys, o) by {
        assert(st.get(keys[o]) == o);
    }
}

/// The ordinals `0, 1, .., n - 1`.
fn all_ordinals(n: usize) -> (v: Vec<usize>)
    ensures
        v@ == ordinals(n as nat),
{
    let mut v: Vec<usize> = Vec::new();
    let mut i: usize = 0;
    while i < n
        invariant
            i <= n,
            v@.len() == i,
            forall|k: int| 0 <= k < i ==> v@[k] == k,
        decreases n - i,
    {
        v.push(i);
        i += 1;
    }
    proof {
        assert(v@ =~= ordinals(n as nat));
    }
    v
}

impl PerfectHash {
    /// Whether the index's invariant holds; every index that this module
    /// hands out is well formed.
    pub open spec fn wf(&self) -> bool {
        self@.wf()
    }

    /// The keys that an index in memory keeps in full can be written down.
    pub proof fn lemma_encodable(&self)
        ensures
            self@.encodable(),
    {
        assert forall|k: int| 0 <= k < self@.fallback_keys.len() implies (
        #[trigger] self@.fallback_keys[k]).len() <= u64::MAX by {
            assert(self@.fallback_keys[k].len() == self.fallback_keys@[k].len());
        }
    }

    /// The number of keys that the index was built over.
    pub fn len(&self) -> (n: usize)
        ensures
            n == self@.len,
    {
        self.len
    }

    /// The ordinal of a key: for a key of the build set, its position in
    /// that set; for any other key, some ordinal below the length, or zero
    /// for an empty index.
    pub fn get(&self, key: &[u8]) -> (r: usize)
        requires
            self.wf(),
        ensures
            r == self@.get(key@),
            self@.len > 0 ==> r < self@.len,
    {
        let ghost lv = level_views(self.levels@);
        let ghost fk = byte_rows(self.fallback_keys@);
        proof {
            if self@.len > 0 {
                lemma_get_in_range(self@, key@);
            }
            assert(lv.take(0).len() == 0);
            assert(fk.take(0).len() == 0);
        }
        let mut l: usize = 0;
        while l < self.levels.len()
            invariant
                l <= self.levels@.len(),
                self.wf(),
                lv == level_views(self.levels@),
                probe(lv.take(l as int), key@) is None,
            decreases self.levels@.len() - l,
        {
            let lvl = &self.levels[l];
            proof {
                assert(lv[l as int] == lvl@);
                assert(lv[l as int].wf(self@.len));
                assert(lv.take(l + 1).drop_last() =~= lv.take(l as int));
                assert(lv.take(l + 1).last() == lvl@);
            }
            let p: usize = slot(key, l as u64, &lvl.seeds, lvl.group_size);
            let v: u64 = lvl.table[p];
            if v >= 2 {
                proof {
                    lemma_probe_prefix(lv, l + 1, key@);
                }
                return (v - 2) as usize;
            }
            l += 1;
        }
        proof {
            assert(lv.take(l as int) =~= lv);
        }
        let mut k: usize = 0;
        while k < self.fallback_keys.len()
            invariant
                k <= self.fallback_keys@.len(),
                self.wf(),
                fk == byte_rows(self.fallback_keys@),
                probe(lv, key@) is None,
                lv == level_views(self.levels@),
                position(fk.take(k as int), key@) is None,
            decreases self.fallback_keys@.len() - k,
        {
            proof {
                assert(fk.take(k + 1).drop_last() =~= fk.take(k as int));
                assert(fk.take(k + 1).last() == self.fallback_keys@[k as int]@);
            }
            if bytes_eq(self.fallback_keys[k].as_slice(), key) {
                proof {
                    lemma_position_prefix(fk, k + 1, key@);
                }
                return self.fallback_ordinals[k];
            }
            k += 1;
        }
        proof {
            assert(fk.take(k as int) =~= fk);
        }
        0
    }

    /// Builds the index over `keys`. Fails with `TooLarge` for more than
    /// [`MAX_KEYS`] keys and with `DuplicateKey` when two keys are equal;
    /// otherwise every key is answered with its position in `keys`.
    pub fn build(variant: PerfectHashingFunction, keys: &Vec<Vec<u8>>) -> (r: Result<
        PerfectHash,
        NippyJarError,
    >)
        ensures
            match r {
                Ok(f) => {
                    &&& keys@.len() <= MAX_KEYS
                    &&& !has_duplicates(byte_rows(keys@))
                    &&& f.wf()
                    &&& f@.len == keys@.len()
                    &&& f@ == PhfState::built(variant, byte_rows(keys@))
                    &&& forall|i: int|
                        0 <= i < keys@.len() ==> f@.get(#[trigger] byte_rows(keys@)[i]) == i
                },
                Err(e) => if keys@.len() > MAX_KEYS {
                    e == NippyJarError::TooLarge
                } else {
                    e == NippyJarError::DuplicateKey && has_duplicates(byte_rows(keys@))
                },
            },
    {
        let n: usize = keys.len();
        if n > MAX_KEYS {
            return Err(NippyJarError::TooLarge);
        }
        let ghost ks = byte_rows(keys@);
        let mut rem: Vec<usize> = all_ordinals(n);
        let mut levels: Vec<Level> = Vec::new();
        let mut level: usize = 0;
        proof {
            assert forall|i: int| 0 <= i < n implies #[trigger] resolved(
                level_views(levels@),
                rem@,
                ks,
                i,
            ) by {
                assert(rem@[i] == i as usize);
            }
            assert(level_views(levels@) + cascade(variant, ks, rem@, 0).0 =~= cascade(
                variant,
                ks,
                rem@,
                0,
            ).0);
        }
        while rem.len() > 0 && level < MAX_LEVELS
            invariant
                level <= MAX_LEVELS,
                level == levels@.len(),
                n == keys@.len(),
                n <= MAX_KEYS,
                ks == byte_rows(keys@),
                rem@.len() <= n,
                increasing(rem@),
                forall|k: int| 0 <= k < rem@.len() ==> #[trigger] rem@[k] < n,
                forall|l: int|
                    0 <= l < levels@.len() ==> (#[trigger] level_views(levels@)[l]).wf(n as nat),
                cascade(variant, ks, ordinals(n as nat), 0) == (
                    level_views(levels@) + cascade(variant, ks, rem@, level as nat).0,
                    cascade(variant, ks, rem@, level as nat).1,
                ),
                forall|i: int|
                    0 <= i < n ==> #[trigger] resolved(level_views(levels@), rem@, ks, i),
            decreases MAX_LEVELS - level,
        {
            let seeds = choose_seeds(variant, keys, &rem, level as u64);
            let group_size: usize = match variant {
                PerfectHashingFunction::Fmph => 2 * rem.len(),
                PerfectHashingFunction::GoFmph => GROUP_SLOTS,
            };
            let table = fill_table(keys, &rem, level as u64, &seeds, group_size);
            let rest = keep_survivors(keys, &rem, level as u64, &seeds, group_size, &table);
            let lvl = Level { seeds, group_size, table };
            proof {
                let before = level_views(levels@);
                assert(lvl@ == level_for(variant, ks, rem@, level as u64));
                lemma_build_step(variant, ks, before, rem@, level as nat);
                assert(level_views(levels@.push(lvl)) =~= before.push(lvl@));
            }
            levels.push(lvl);
            rem = rest;
            level += 1;
        }
        let mut a: usize = 0;
        while a < rem.len()
            invariant
                a <= rem@.len(),
                n == keys@.len(),
                n <= MAX_KEYS,
                ks == byte_rows(keys@),
                increasing(rem@),
                forall|k: int| 0 <= k < rem@.len() ==> #[trigger] rem@[k] < n,
                forall|x: int, y: int|
                    0 <= x < a && x < y < rem@.len() ==> ks[rem@[x] as int] != ks[rem@[y] as int],
            decreases rem@.len() - a,
        {
            let mut b: usize = a + 1;
            while b < rem.len()
                invariant
                    a < b <= rem@.len(),
                    n == keys@.len(),
                    n <= MAX_KEYS,
                    ks == byte_rows(keys@),
                    increasing(rem@),
                    forall|k: int| 0 <= k < rem@.len() ==> #[trigger] rem@[k] < n,
                    forall|y: int| a < y < b ==> ks[rem@[a as int] as int] != ks[rem@[y] as int],
                decreases rem@.len() - b,
            {
                if bytes_eq(keys[rem[a]].as_slice(), keys[rem[b]].as_slice()) {
                    proof {
                        let i = rem@[a as int] as int;
                        let j = rem@[b as int] as int;
                        assert(i < j);
                        assert(ks[i] == ks[j]);
                        assert(has_duplicates(ks));
                    }
                    return Err(NippyJarError::DuplicateKey);
                }
                b += 1;
            }
            a += 1;
        }
        let mut fallback_keys: Vec<Vec<u8>> = Vec::new();
        let mut k: usize = 0;
        while k < rem.len()
            invariant
                k <= rem@.len(),
                n == keys@.len(),
                forall|x: int| 0 <= x < rem@.len() ==> #[trigger] rem@[x] < n,
                fallback_keys@.len() == k,
                forall|x: int| 0 <= x < k ==> (#[trigger] fallback_keys@[x])@ == keys@[rem@[x] as int]@,
            decreases rem@.len() - k,
        {
            fallback_keys.push(copy_bytes(keys[rem[k]].as_slice()));
            k += 1;
        }
        let f = PerfectHash { len: n, levels, fallback_keys, fallback_ordinals: rem };
        proof {
            reveal(PhfState::built);
            let built = PhfState::built(variant, ks);
            assert(cascade(variant, ks, f@.fallback_ordinals, f@.levels.len()) == (
                Seq::<LevelState>::empty(),
                f@.fallback_ordinals,
            ));
            assert(f@.levels + Seq::<LevelState>::empty() =~= f@.levels);
            assert(f@.fallback_keys =~= built.fallback_keys);
            assert(f@ == built);
            assert forall|x: int, y: int| 0 <= x < y < f@.fallback_keys.len() implies f@.fallback_keys[x]
                != f@.fallback_keys[y] by {
                assert(f@.fallback_keys[x] == ks[f@.fallback_ordinals[x] as int]);
                assert(f@.fallback_keys[y] == ks[f@.fallback_ordinals[y] as int]);
            }
            assert(settled(f@, ks));
            lemma_settled_is_perfect(f@, ks);
        }
        Ok(f)
    }
}

/// The words of a level's first section: its group size, then its seeds.
pub open spec fn level_head(lvl: LevelState) -> Seq<u64> {
    seq![lvl.group_size as u64] + lvl.seeds
}

/// The words that stand for ordinals.
pub open spec fn ordinal_words(ordinals: Seq<usize>) -> Seq<u64> {
    Seq::new(ordinals.len(), |k: int| ordinals[k] as u64)
}

/// Whether the two sections of level `l` hold words, and the first of them
/// a group size and at least one seed.
pub open spec fn level_readable(sections: Seq<Seq<u8>>, l: int) -> bool {
    &&& bytes_words(sections[1 + 2 * l]) is Some
    &&& bytes_words(sections[2 + 2 * l]) is Some
    &&& bytes_words(sections[1 + 2 * l])->0.len() >= 2
}

/// The level that the two sections of level `l` hold.
pub open spec fn level_at(sections: Seq<Seq<u8>>, l: int) -> LevelState {
    let head = bytes_words(sections[1 + 2 * l])->0;
    LevelState {
        seeds: head.skip(1),
        group_size: head[0] as nat,
        table: bytes_words(sections[2 + 2 * l])->0,
    }
}

impl PhfState {
    /// Whether the keys kept in full are short enough to be written down.
    pub open spec fn encodable(self) -> bool {
        forall|k: int|
            0 <= k < self.fallback_keys.len() ==> (#[trigger] self.fallback_keys[k]).len()
                <= u64::MAX
    }

    /// The index as sections of an artifact: three counts; two sections
    /// per level; the ordinals of the keys kept in full; those keys.
    pub open spec fn sections(self) -> Seq<Seq<u8>> {
        seq![
            words_bytes(
                seq![self.len as u64, self.levels.len() as u64, self.fallback_keys.len() as u64],
            ),
        ] + Seq::new(
            2 * self.levels.len(),
            |i: int|
                if i % 2 == 0 {
                    words_bytes(level_head(self.levels[i / 2]))
                } else {
                    words_bytes(self.levels[i / 2].table)
                },
        ) + seq![words_bytes(ordinal_words(self.fallback_ordinals))] + self.fallback_keys
    }

    /// The index that sections of an artifact hold, if they hold a well
    /// formed one.
    pub open spec fn decoded(sections: Seq<Seq<u8>>) -> Option<PhfState> {
        if sections.len() < 2 {
            None
        } else {
            match bytes_words(sections[0]) {
                None => None,
                Some(counts) => if counts.len() != 3 || counts[0] > MAX_KEYS || counts[1]
                    > MAX_LEVELS || sections.len() != 2 + 2 * counts[1] + counts[2] {
                    None
                } else if !(forall|l: int|
                    0 <= l < counts[1] ==> #[trigger] level_readable(sections, l)) {
                    None
                } else {
                    match bytes_words(sections[1 + 2 * counts[1]]) {
                        None => None,
                        Some(words) => {
                            let st = PhfState {
                                len: counts[0] as nat,
                                levels: Seq::new(counts[1] as nat, |l: int| level_at(sections, l)),
                                fallback_keys: sections.subrange(
                                    2 + 2 * counts[1],
                                    sections.len() as int,
                                ),
                                fallback_ordinals: Seq::new(words.len(), |k: int| words[k] as usize),
                            };
                            if words.len() == counts[2] && (forall|k: int|
                                0 <= k < words.len() ==> #[trigger] words[k] < counts[0])
                                && st.wf() {
                                Some(st)
                            } else {
                                None
                            }
                        },
                    }
                },
            }
        }
    }
}

/// Whether the first section holds the three counts `len`, `levels` and
/// the number of sections that are left for keys kept in full.
pub open spec fn counted(sections: Seq<Seq<u8>>, len: nat, levels: nat) -> bool {
    &&& sections.len() >= 2 + 2 * levels
    &&& len <= MAX_KEYS
    &&& levels <= MAX_LEVELS
    &&& bytes_words(sections[0]) matches Some(counts) && counts.len() == 3 && counts[0] == len
        && counts[1] == levels && counts[2] == sections.len() - 2 - 2 * levels
}

/// A well formed level has no more groups, and no larger groups, than it
/// has slots.
pub proof fn lemma_level_bounds(lvl: LevelState, len: nat)
    requires
        lvl.wf(len),
    ensures
        lvl.seeds.len() <= lvl.table.len(),
        lvl.group_size <= lvl.table.len(),
{
    let g = lvl.seeds.len() as int;
    let s = lvl.group_size as int;
    assert(g <= g * s && s <= g * s) by (nonlinear_arith)
        requires
            g >= 1,
            s >= 1,
    ;
}

/// The two sections of a level hold the level itself.
pub proof fn lemma_level_roundtrip(st: PhfState, l: int)
    requires
        st.wf(),
        0 <= l < st.levels.len(),
    ensures
        level_readable(st.sections(), l),
        level_at(st.sections(), l) == st.levels[l],
{
    let sections = st.sections();
    let lvl = st.levels[l];
    lemma_level_bounds(lvl, st.len);
    assert(sections[1 + 2 * l] == words_bytes(level_head(lvl)));
    assert(sections[2 + 2 * l] == words_bytes(lvl.table));
    lemma_words_roundtrip(level_head(lvl));
    lemma_words_roundtrip(lvl.table);
    assert(level_head(lvl).skip(1) =~= lvl.seeds);
}

/// Round trip of an index: its sections hold the index itself.
pub proof fn lemma_phf_roundtrip(st: PhfState)
    requires
        st.wf(),
    ensures
        PhfState::decoded(st.sections()) == Some(st),
{
    let sections = st.sections();
    let counts = seq![st.len as u64, st.levels.len() as u64, st.fallback_keys.len() as u64];
    let levels = st.levels.len() as int;
    lemma_words_roundtrip(counts);
    assert(sections[0] == words_bytes(counts));
    assert(sections.len() == 2 + 2 * levels + st.fallback_keys.len());
    assert forall|l: int| 0 <= l < levels implies #[trigger] level_readable(sections, l) by {
        lemma_level_roundtrip(st, l);
    }
    assert forall|l: int| 0 <= l < levels implies #[trigger] level_at(sections, l)
        == st.levels[l] by {
        lemma_level_roundtrip(st, l);
    }
    let words = ordinal_words(st.fallback_ordinals);
    lemma_words_roundtrip(words);
    assert(sections[1 + 2 * levels] == words_bytes(words));
    let back = PhfState {
        len: counts[0] as nat,
        levels: Seq::new(counts[1] as nat, |l: int| level_at(sections, l)),
        fallback_keys: sections.subrange(2 + 2 * counts[1], sections.len() as int),
        fallback_ordinals: Seq::new(words.len(), |k: int| words[k] as usize),
    };
    assert(back.levels =~= st.levels);
    assert(back.fallback_keys =~= st.fallback_keys);
    assert(back.fallback_ordinals =~= st.fallback_ordinals);
    assert(back == st);
}

impl PerfectHash {
    /// The index as sections of an artifact.
    pub fn to_sections(&self) -> (out: Vec<Vec<u8>>)
        requires
            self.wf(),
        ensures
            byte_rows(out@) == self@.sections(),
    {
        let ghost target = self@.sections();
        let mut out: Vec<Vec<u8>> = Vec::new();
        let mut counts: Vec<u64> = Vec::new();
        counts.push(self.len as u64);
        counts.push(self.levels.len() as u64);
        counts.push(self.fallback_keys.len() as u64);
        proof {
            assert(counts@ =~= seq![
                self@.len as u64,
                self@.levels.len() as u64,
                self@.fallback_keys.len() as u64,
            ]);
        }
        out.push(encode_words(&counts));
        let mut l: usize = 0;
        while l < self.levels.len()
            invariant
                l <= self.levels@.len(),
                self.wf(),
                target == self@.sections(),
                out@.len() == 1 + 2 * l,
                forall|i: int| 0 <= i < out@.len() ==> (#[trigger] out@[i])@ == target[i],
            decreases self.levels@.len() - l,
        {
            let lvl = &self.levels[l];
            let mut head: Vec<u64> = Vec::new();
            head.push(lvl.group_size as u64);
            let mut g: usize = 0;
            while g < lvl.seeds.len()
                invariant
                    g <= lvl.seeds@.len(),
                    head@.len() == 1 + g,
                    head@[0] == lvl.group_size as u64,
                    forall|h: int| 0 <= h < g ==> head@[1 + h] == lvl.seeds@[h],
                decreases lvl.seeds@.len() - g,
            {
                head.push(lvl.seeds[g]);
                g += 1;
            }
            proof {
                assert(self@.levels[l as int] == lvl@);
                assert(head@ =~= level_head(lvl@));
                assert(target[1 + 2 * l] == words_bytes(level_head(self@.levels[(1 + 2 * l - 1) / 2])));
                assert(target[2 + 2 * l] == words_bytes(self@.levels[(2 + 2 * l - 1) / 2].table));
            }
            out.push(encode_words(&head));
            out.push(encode_words(&lvl.table));
            l += 1;
        }
        let mut words: Vec<u64> = Vec::new();
        let mut k: usize = 0;
        while k < self.fallback_ordinals.len()
            invariant
                k <= self.fallback_ordinals@.len(),
                words@.len() == k,
                forall|h: int| 0 <= h < k ==> words@[h] == self.fallback_ordinals@[h] as u64,
            decreases self.fallback_ordinals@.len() - k,
        {
            words.push(self.fallback_ordinals[k] as u64);
            k += 1;
        }
        proof {
            assert(words@ =~= ordinal_words(self@.fallback_ordinals));
        }
        out.push(encode_words(&words));
        let mut k: usize = 0;
        while k < self.fallback_keys.len()
            invariant
                k <= self.fallback_keys@.len(),
                self.wf(),
                target == self@.sections(),
                out@.len() == 2 + 2 * self.levels@.len() + k,
                forall|i: int| 0 <= i < out@.len() ==> (#[trigger] out@[i])@ == target[i],
            decreases self.fallback_keys@.len() - k,
        {
            proof {
                assert(target[2 + 2 * self.levels@.len() + k] == self@.fallback_keys[k as int]);
            }
            out.push(copy_bytes(self.fallback_keys[k].as_slice()));
            k += 1;
        }
        proof {
            assert(byte_rows(out@) =~= target);
        }
        out
    }

    /// The index that sections of an artifact hold, if they hold a well
    /// formed one.
    pub fn from_sections(sections: &Vec<Vec<u8>>) -> (r: Option<PerfectHash>)
        ensures
            match PhfState::decoded(byte_rows(sections@)) {
                Some(st) => r matches Some(f) && f@ == st && f.wf(),
                None => r is None,
            },
    {
        let ghost ss = byte_rows(sections@);
        let total: usize = sections.len();
        if total < 2 {
            return None;
        }
        proof {
            assert(ss[0] == sections@[0]@);
        }
        let counts = match decode_words(sections[0].as_slice()) {
            Some(c) => c,
            None => {
                return None;
            },
        };
        if counts.len() != 3 || counts[0] > MAX_KEYS as u64 || counts[1] > MAX_LEVELS as u64 {
            return None;
        }
        let len: usize = counts[0] as usize;
        let level_count: usize = counts[1] as usize;
        if total < 2 + 2 * level_count || (total - 2 - 2 * level_count) as u64 != counts[2] {
            return None;
        }
        assert(counted(ss, len as nat, level_count as nat));
        let mut levels: Vec<Level> = Vec::new();
        let mut l: usize = 0;
        while l < level_count
            invariant
                l <= level_count,
                level_count <= MAX_LEVELS,
                total == sections@.len(),
                total >= 2 + 2 * level_count,
                ss == byte_rows(sections@),
                counted(ss, len as nat, level_count as nat),
                levels@.len() == l,
                forall|h: int| 0 <= h < l ==> #[trigger] level_readable(ss, h),
                forall|h: int| 0 <= h < l ==> (#[trigger] levels@[h])@ == level_at(ss, h),
                forall|h: int| 0 <= h < l ==> (#[trigger] levels@[h])@.wf(len as nat),
            decreases level_count - l,
        {
            proof {
                assert(ss[1 + 2 * l] == sections@[1 + 2 * l]@);
                assert(ss[2 + 2 * l] == sections@[2 + 2 * l]@);
            }
            let head = match decode_words(sections[1 + 2 * l].as_slice()) {
                Some(h) => h,
                None => {
                    proof {
                        assert(!level_readable(ss, l as int));
                    }
                    return None;
                },
            };
            let table = match decode_words(sections[2 + 2 * l].as_slice()) {
                Some(t) => t,
                None => {
                    proof {
                        assert(!level_readable(ss, l as int));
                    }
                    return None;
                },
            };
            if head.len() < 2 {
                proof {
                    assert(!level_readable(ss, l as int));
                }
                return None;
            }
            let ghost model = level_at(ss, l as int);
            let size: usize = table.len();
            let groups: usize = head.len() - 1;
            if size > MAX_TABLE || head[0] == 0 || head[0] > size as u64 || groups > size {
                proof {
                    if model.wf(len as nat) {
                        lemma_level_bounds(model, len as nat);
                    }
                    assert(!model.wf(len as nat));
                    lemma_decoded_needs_level(ss, len as nat, level_count as nat, l as int);
                }
                return None;
            }
            let group_size: usize = head[0] as usize;
            assert(groups * group_size <= MAX_TABLE * MAX_TABLE) by (nonlinear_arith)
                requires
                    groups <= MAX_TABLE,
                    group_size <= MAX_TABLE,
            ;
            if (groups as u64) * (group_size as u64) != size as u64 {
                proof {
                    assert(!model.wf(len as nat));
                    lemma_decoded_needs_level(ss, len as nat, level_count as nat, l as int);
                }
                return None;
            }
            let mut p: usize = 0;
            while p < size
                invariant
                    p <= size,
                    size == table@.len(),
                    l < level_count,
                    ss == byte_rows(sections@),
                    counted(ss, len as nat, level_count as nat),
                    model == level_at(ss, l as int),
                    model.table == table@,
                    forall|q: int| 0 <= q < p ==> #[trigger] table@[q] < len + 2,
                decreases size - p,
            {
                if table[p] >= len as u64 + 2 {
                    proof {
                        assert(model.table[p as int] == table@[p as int]);
                        assert(!model.wf(len as nat));
                        lemma_decoded_needs_level(ss, len as nat, level_count as nat, l as int);
                    }
                    return None;
                }
                p += 1;
            }
            let mut seeds: Vec<u64> = Vec::new();
            let mut g: usize = 0;
            while g < groups
                invariant
                    g <= groups,
                    groups == head@.len() - 1,
                    seeds@.len() == g,
                    forall|h: int| 0 <= h < g ==> seeds@[h] == head@[1 + h],
                decreases groups - g,
            {
                seeds.push(head[1 + g]);
                g += 1;
            }
            let lvl = Level { seeds, group_size, table };
            proof {
                assert(lvl@.seeds =~= model.seeds);
                assert(lvl@ == model);
            }
            levels.push(lvl);
            l += 1;
        }
        proof {
            assert(ss[1 + 2 * level_count] == sections@[1 + 2 * level_count]@);
        }
        let words = match decode_words(sections[1 + 2 * level_count].as_slice()) {
            Some(w) => w,
            None => {
                return None;
            },
        };
        let fallback: usize = total - 2 - 2 * level_count;
        if words.len() != fallback || fallback > len {
            return None;
        }
        let mut fallback_ordinals: Vec<usize> = Vec::new();
        let mut k: usize = 0;
        while k < fallback
            invariant
                k <= fallback,
                fallback == words@.len(),
                len <= MAX_KEYS,
                ss == byte_rows(sections@),
                counted(ss, len as nat, level_count as nat),
                bytes_words(ss[1 + 2 * level_count]) == Some(words@),
                fallback_ordinals@.len() == k,
                forall|h: int| 0 <= h < k ==> #[trigger] words@[h] < len,
                forall|h: int| 0 <= h < k ==> fallback_ordinals@[h] == words@[h] as usize,
            decreases fallback - k,
        {
            if words[k] >= len as u64 {
                return None;
            }
            fallback_ordinals.push(words[k] as usize);
            k += 1;
        }
        let mut fallback_keys: Vec<Vec<u8>> = Vec::new();
        let mut k: usize = 0;
        while k < fallback
            invariant
                k <= fallback,
                total == sections@.len(),
                total == 2 + 2 * level_count + fallback,
                fallback_keys@.len() == k,
                forall|h: int|
                    0 <= h < k ==> (#[trigger] fallback_keys@[h])@ == sections@[2 + 2 * level_count
                        + h]@,
            decreases fallback - k,
        {
            fallback_keys.push(copy_bytes(sections[2 + 2 * level_count + k].as_slice()));
            k += 1;
        }
        let f = PerfectHash { len, levels, fallback_keys, fallback_ordinals };
        proof {
            let st = PhfState::decoded(ss);
            assert(f@.levels =~= Seq::new(level_count as nat, |h: int| level_at(ss, h)));
            assert(f@.fallback_keys =~= ss.subrange(2 + 2 * level_count, ss.len() as int));
            assert(f@.fallback_ordinals =~= Seq::new(words@.len(), |h: int| words@[h] as usize));
            assert(f@.wf());
        }
        Some(f)
    }
}

/// Sections whose level `l` is not well formed hold no index.
proof fn lemma_decoded_needs_level(sections: Seq<Seq<u8>>, len: nat, levels: nat, l: int)
    requires
        counted(sections, len, levels),
        0 <= l < levels,
        !level_at(sections, l).wf(len),
    ensures
        PhfState::decoded(sections) is None,
{
    if PhfState::decoded(sections) is Some {
        let st = PhfState::decoded(sections)->0;
        assert(st.levels[l] == level_at(sections, l));
        assert(st.levels[l].wf(st.len));
    }
}

} // verus!
