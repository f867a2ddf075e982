//! Per-search cache of repetition-dependent draw results.
//!
//! Under the solver's repetition semantics a node's value is a function of
//! its position key (clock included) and of the *set* of repetition keys of
//! its ancestors. Only draws that depended on a repetition are stored, keyed
//! by exactly that pair, so a hit returns what the search would recompute and
//! can never manufacture a decisive result.

use std::collections::HashMap;

use vstd::prelude::*;

use crate::zobrist::{self, spec_mix};

verus! {

broadcast use vstd::std_specs::hash::group_hash_axioms;

/// Order-independent mixing of one repetition key (a bijection on `u64`).
pub fn mix_key(key: u64) -> (r: u64)
    ensures
        r == spec_mix(key),
{
    zobrist::mix(key)
}

/// The sum of the mixed keys, as an unbounded integer.
pub open spec fn spec_mixed_sum(keys: Seq<u64>) -> nat
    decreases keys.len(),
{
    if keys.len() == 0 {
        0
    } else {
        spec_mixed_sum(keys.drop_last()) + spec_mix(keys.last()) as nat
    }
}

/// The context hash of an ancestor-key sequence: the wrapping sum of the
/// mixed keys.
pub open spec fn spec_context_hash(keys: Seq<u64>) -> u64 {
    (spec_mixed_sum(keys) % 0x1_0000_0000_0000_0000) as u64
}

/// The single map key standing for the pair `(tt_key, context_hash)`.
pub open spec fn spec_pair_key(tt_key: u64, context_hash: u64) -> u128 {
    ((tt_key as int) * 0x1_0000_0000_0000_0000 + (context_hash as int)) as u128
}

/// Distinct pairs have distinct map keys.
pub proof fn lemma_pair_key_injective(a1: u64, b1: u64, a2: u64, b2: u64)
    requires
        spec_pair_key(a1, b1) == spec_pair_key(a2, b2),
    ensures
        a1 == a2 && b1 == b2,
{
    let m: int = 0x1_0000_0000_0000_0000;
    let x1: int = a1 as int * m + b1 as int;
    let x2: int = a2 as int * m + b2 as int;
    assert(0 <= x1 <= u128::MAX) by (nonlinear_arith)
        requires
            0 <= a1 < m,
            0 <= b1 < m,
            x1 == a1 as int * m + b1 as int,
            m == 0x1_0000_0000_0000_0000,
    ;
    assert(0 <= x2 <= u128::MAX) by (nonlinear_arith)
        requires
            0 <= a2 < m,
            0 <= b2 < m,
            x2 == a2 as int * m + b2 as int,
            m == 0x1_0000_0000_0000_0000,
    ;
    assert(x1 == x2);
    vstd::arithmetic::div_mod::lemma_fundamental_div_mod_converse(x1, m, a1 as int, b1 as int);
    vstd::arithmetic::div_mod::lemma_fundamental_div_mod_converse(x2, m, a2 as int, b2 as int);
}

fn pair_key(tt_key: u64, context_hash: u64) -> (r: u128)
    ensures
        r == spec_pair_key(tt_key, context_hash),
{
    assert((tt_key as u128) * 0x1_0000_0000_0000_0000u128 + (context_hash as u128) <= u128::MAX) by (nonlinear_arith)
        requires
            tt_key <= u64::MAX,
            context_hash <= u64::MAX,
    ;
    (tt_key as u128) * 0x1_0000_0000_0000_0000u128 + (context_hash as u128)
}

/// Cache of repetition-dependent draw proofs for one search run, mapping
/// `(position key, ancestor context hash)` to the proven depth.
pub struct RepetitionCache {
    map: HashMap<u128, u32>,
    /// Hard entry bound; inserts into a full cache are dropped.
    capacity: usize,
    /// Probe hits since the last clear.
    pub hits: u64,
}

impl RepetitionCache {
    pub closed spec fn entries(self) -> Map<u128, u32> {
        self.map@
    }

    pub closed spec fn hit_count(self) -> u64 {
        self.hits
    }

    pub closed spec fn spec_capacity(self) -> nat {
        self.capacity as nat
    }

    /// Default capacity: `1 << 18` entries.
    pub fn new() -> (r: RepetitionCache)
        ensures
            r.entries() == Map::<u128, u32>::empty(),
            r.spec_capacity() == 0x40000,
            r.hit_count() == 0,
    {
        Self::with_capacity(0x40000)
    }

    pub fn with_capacity(capacity: usize) -> (r: RepetitionCache)
        ensures
            r.entries() == Map::<u128, u32>::empty(),
            r.spec_capacity() == capacity,
            r.hit_count() == 0,
    {
        let initial = if capacity < 4096 { capacity } else { 4096 };
        RepetitionCache { map: HashMap::with_capacity(initial), capacity, hits: 0 }
    }

    /// Order-independent context hash of an ancestor repetition-key set.
    pub fn context_hash(keys: &[u64]) -> (r: u64)
        ensures
            r == spec_context_hash(keys@),
    {
        let mut acc: u64 = 0;
        let mut i: usize = 0;
        while i < keys.len()
            invariant
                i <= keys.len(),
                acc == spec_context_hash(keys@.take(i as int)),
            decreases keys.len() - i,
        {
            proof {
                assert(keys@.take(i + 1).drop_last() =~= keys@.take(i as int));
                lemma_wrapping_add_mod(spec_mixed_sum(keys@.take(i as int)), spec_mix(keys@[i as int]));
            }
            acc = acc.wrapping_add(mix_key(keys[i]));
            i += 1;
        }
        proof {
            assert(keys@.take(keys.len() as int) =~= keys@);
        }
        acc
    }

    /// The cached depth of a repetition-dependent draw for the pair, if any.
    pub fn probe(&mut self, tt_key: u64, context_hash: u64) -> (r: Option<u32>)
        ensures
            final(self).entries() == old(self).entries(),
            final(self).spec_capacity() == old(self).spec_capacity(),
            r == (if old(self).entries().contains_key(spec_pair_key(tt_key, context_hash)) {
                Some(old(self).entries()[spec_pair_key(tt_key, context_hash)])
            } else {
                None
            }),
            r is Some ==> final(self).hit_count() == (if old(self).hit_count() < u64::MAX { old(self).hit_count() + 1 } else { old(self).hit_count() as int }),
            r is None ==> final(self).hit_count() == old(self).hit_count(),
    {
        let k = pair_key(tt_key, context_hash);
        let hit = match self.map.get(&k) {
            Some(d) => Some(*d),
            None => None,
        };
        if hit.is_some() {
            self.hits = self.hits.saturating_add(1);
        }
        hit
    }

    /// Store a proven repetition-dependent draw; dropped when the cache is
    /// full.
    pub fn store(&mut self, tt_key: u64, context_hash: u64, depth: u32)
        ensures
            final(self).spec_capacity() == old(self).spec_capacity(),
            final(self).hit_count() == old(self).hit_count(),
            final(self).entries() == (if old(self).entries().len() >= old(self).spec_capacity() {
                old(self).entries()
            } else {
                old(self).entries().insert(spec_pair_key(tt_key, context_hash), depth)
            }),
    {
        if self.map.len() >= self.capacity {
            return;
        }
        let k = pair_key(tt_key, context_hash);
        self.map.insert(k, depth);
    }

    /// Drop all entries and reset the hit counter.
    pub fn clear(&mut self)
        ensures
            final(self).entries() == Map::<u128, u32>::empty(),
            final(self).spec_capacity() == old(self).spec_capacity(),
            final(self).hit_count() == 0,
    {
        self.map.clear();
        self.hits = 0;
    }

    /// Number of live entries.
    pub fn len(&self) -> (r: usize)
        ensures
            r == self.entries().len(),
    {
        self.map.len()
    }

    pub fn is_empty(&self) -> (r: bool)
        ensures
            r == (self.entries().len() == 0),
    {
        self.map.is_empty()
    }
}

proof fn lemma_wrapping_add_mod(s: nat, x: u64)
    ensures
        vstd::wrapping::u64_specs::wrapping_add((s % 0x1_0000_0000_0000_0000) as u64, x)
            == ((s + x as nat) % 0x1_0000_0000_0000_0000) as u64,
{
    let m: int = 0x1_0000_0000_0000_0000;
    let a: int = s as int % m;
    vstd::arithmetic::div_mod::lemma_mod_bound(s as int, m);
    vstd::arithmetic::div_mod::lemma_add_mod_noop(s as int, x as int, m);
    vstd::arithmetic::div_mod::lemma_small_mod(x as nat, m as nat);
    if a + x >= m {
        vstd::arithmetic::div_mod::lemma_mod_sub_multiples_vanish(a + x, m);
        vstd::arithmetic::div_mod::lemma_small_mod((a + x - m) as nat, m as nat);
    } else {
        vstd::arithmetic::div_mod::lemma_small_mod((a + x) as nat, m as nat);
    }
}

proof fn lemma_mixed_sum_remove(s: Seq<u64>, j: int)
    requires
        0 <= j < s.len(),
    ensures
        spec_mixed_sum(s) == spec_mixed_sum(s.remove(j)) + spec_mix(s[j]) as nat,
    decreases s.len(),
{
    if j == s.len() - 1 {
        assert(s.remove(j) =~= s.drop_last());
    } else {
        lemma_mixed_sum_remove(s.drop_last(), j);
        assert(s.remove(j).drop_last() =~= s.drop_last().remove(j));
        assert(s.remove(j).last() == s.last());
    }
}

/// The context hash is order independent: two key sequences holding the
/// same keys with the same multiplicities hash alike.
pub proof fn lemma_context_hash_order_independent(s1: Seq<u64>, s2: Seq<u64>)
    requires
        s1.to_multiset() == s2.to_multiset(),
    ensures
        spec_context_hash(s1) == spec_context_hash(s2),
{
    lemma_mixed_sum_permutation(s1, s2);
}

proof fn lemma_mixed_sum_permutation(s1: Seq<u64>, s2: Seq<u64>)
    requires
        s1.to_multiset() == s2.to_multiset(),
    ensures
        spec_mixed_sum(s1) == spec_mixed_sum(s2),
    decreases s1.len(),
{
    broadcast use vstd::seq_lib::group_to_multiset_ensures;
    if s1.len() == 0 {
        assert(s2.to_multiset().len() == 0);
        if s2.len() > 0 {
            assert(s2.to_multiset().count(s2[0]) > 0);
        }
    } else {
        let x = s1.last();
        assert(s1.to_multiset().count(x) > 0) by {
            assert(s1.contains(x)) by {
                assert(s1[s1.len() - 1] == x);
            }
        }
        assert(s2.contains(x));
        let j = choose|j: int| 0 <= j < s2.len() && s2[j] == x;
        assert(s1.drop_last().to_multiset() == s1.to_multiset().remove(x)) by {
            assert(s1.drop_last().push(x) =~= s1);
        }
        assert(s2.remove(j).to_multiset() == s2.to_multiset().remove(x));
        lemma_mixed_sum_permutation(s1.drop_last(), s2.remove(j));
        lemma_mixed_sum_remove(s2, j);
    }
}

} // verus!
