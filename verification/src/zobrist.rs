//! Deterministic Zobrist hashing support.
//!
//! The board component of a position key comes from the move generator's own
//! incremental hash; this module supplies the halfmove-clock keys that are
//! mixed into it for transposition-table lookup.

use vstd::prelude::*;

verus! {

/// Proof/disproof number standing for infinity.
pub const INF: u64 = 0x1000_0000_0000_0000;

/// Number of distinct halfmove-clock keys (clock values `0..=100`).
pub const RULE50_KEY_COUNT: usize = 101;

/// SplitMix64 increment, also the generator's seed.
pub const RULE50_KEY_SEED: u64 = 0x9e37_79b9_7f4a_7c15;

pub const MIX_MUL_1: u64 = 0xbf58_476d_1ce4_e5b9;

pub const MIX_MUL_2: u64 = 0x94d0_49bb_1331_11eb;

/// One SplitMix64 finalizer round, as a mathematical function on `u64`.
pub open spec fn spec_mix(z: u64) -> u64 {
    let a = vstd::wrapping::u64_specs::wrapping_mul(z ^ (z >> 30u64), MIX_MUL_1);
    let b = vstd::wrapping::u64_specs::wrapping_mul(a ^ (a >> 27u64), MIX_MUL_2);
    b ^ (b >> 31u64)
}

/// The SplitMix64 state after `n` increments of the seed, starting from the seed.
pub open spec fn spec_splitmix_state(n: nat) -> u64 {
    (((n + 1) * (RULE50_KEY_SEED as nat)) % 0x1_0000_0000_0000_0000) as u64
}

/// The halfmove-clock key of clock value `rule50` (clamped to 100): the
/// `min(rule50, 100)`-th output of a SplitMix64 stream seeded with
/// [`RULE50_KEY_SEED`].
pub open spec fn spec_rule50_key(rule50: u16) -> u64 {
    let i: nat = if rule50 <= 100 { rule50 as nat } else { 100 };
    spec_mix(spec_splitmix_state(i + 1))
}

/// A single 64-bit SplitMix64 mixing round.
pub fn mix(z: u64) -> (r: u64)
    ensures
        r == spec_mix(z),
{
    let a = (z ^ (z >> 30u64)).wrapping_mul(MIX_MUL_1);
    let b = (a ^ (a >> 27u64)).wrapping_mul(MIX_MUL_2);
    b ^ (b >> 31u64)
}

proof fn lemma_splitmix_step(n: nat)
    ensures
        vstd::wrapping::u64_specs::wrapping_add(spec_splitmix_state(n), RULE50_KEY_SEED)
            == spec_splitmix_state(n + 1),
{
    let m: int = 0x1_0000_0000_0000_0000;
    let s: int = RULE50_KEY_SEED as int;
    let a: int = (n + 1) * s;
    vstd::arithmetic::div_mod::lemma_fundamental_div_mod(a, m);
    vstd::arithmetic::div_mod::lemma_mod_bound(a, m);
    assert((n + 2) * s == a + s) by (nonlinear_arith)
        requires
            a == (n + 1) * s,
    ;
    vstd::arithmetic::div_mod::lemma_add_mod_noop(a, s, m);
    vstd::arithmetic::div_mod::lemma_small_mod(s as nat, m as nat);
    let x: int = a % m;
    if x + s >= m {
        vstd::arithmetic::div_mod::lemma_mod_sub_multiples_vanish(x + s, m);
        vstd::arithmetic::div_mod::lemma_small_mod((x + s - m) as nat, m as nat);
    } else {
        vstd::arithmetic::div_mod::lemma_small_mod((x + s) as nat, m as nat);
    }
}

/// Advance the SplitMix64 state by one increment and return the next output.
pub fn splitmix64_next(state: &mut u64) -> (r: u64)
    ensures
        *final(state) == vstd::wrapping::u64_specs::wrapping_add(*old(state), RULE50_KEY_SEED),
        r == spec_mix(*final(state)),
{
    *state = state.wrapping_add(RULE50_KEY_SEED);
    mix(*state)
}

/// Generate the table of halfmove-clock keys by running the SplitMix64 stream.
pub fn generate_rule50_keys() -> (keys: Vec<u64>)
    ensures
        keys.len() == RULE50_KEY_COUNT,
        forall|i: int| 0 <= i < RULE50_KEY_COUNT ==> #[trigger] keys@[i] == spec_rule50_key(i as u16),
{
    let mut keys: Vec<u64> = Vec::new();
    let mut state: u64 = RULE50_KEY_SEED;
    let mut i: usize = 0;
    proof {
        vstd::arithmetic::div_mod::lemma_small_mod(RULE50_KEY_SEED as nat, 0x1_0000_0000_0000_0000nat);
    }
    while i < RULE50_KEY_COUNT
        invariant
            i <= RULE50_KEY_COUNT,
            keys.len() == i,
            state == spec_splitmix_state(i as nat),
            forall|j: int| 0 <= j < i ==> #[trigger] keys@[j] == spec_rule50_key(j as u16),
        decreases RULE50_KEY_COUNT - i,
    {
        proof {
            lemma_splitmix_step(i as nat);
        }
        let k = splitmix64_next(&mut state);
        keys.push(k);
        i += 1;
    }
    keys
}

/// The halfmove-clock key of `rule50`; clocks above 100 share the key of 100.
pub fn rule50_key(rule50: u16) -> (r: u64)
    ensures
        r == spec_rule50_key(rule50),
{
    let i: u16 = if rule50 <= 100 { rule50 } else { 100 };
    let n: u64 = (i as u64) + 2;
    let state = n.wrapping_mul(RULE50_KEY_SEED);
    proof {
        assert(vstd::wrapping::u64_specs::wrapping_mul(n, RULE50_KEY_SEED) == spec_splitmix_state(i as nat + 1)) by {
            assert((n as nat) * (RULE50_KEY_SEED as nat) == ((i as nat + 1) + 1) * (RULE50_KEY_SEED as nat));
        }
    }
    mix(state)
}

/// Combine a board hash with the halfmove-clock key.
pub fn hash_with_rule50(board_hash: u64, rule50: u16) -> (r: u64)
    ensures
        r == board_hash ^ spec_rule50_key(rule50),
{
    board_hash ^ rule50_key(rule50)
}

/// Multiplying by a constant with an inverse modulo 2^64 is one to one on
/// numbers below 2^64.
proof fn lemma_mul_invertible(x: int, y: int, c: int, cinv: int)
    requires
        0 <= x < 0x1_0000_0000_0000_0000,
        0 <= y < 0x1_0000_0000_0000_0000,
        0 <= c,
        0 <= cinv,
        (c * cinv) % 0x1_0000_0000_0000_0000 == 1,
        (x * c) % 0x1_0000_0000_0000_0000 == (y * c) % 0x1_0000_0000_0000_0000,
    ensures
        x == y,
{
    let m: int = 0x1_0000_0000_0000_0000;
    vstd::arithmetic::div_mod::lemma_mul_mod_noop_left(x * c, cinv, m);
    vstd::arithmetic::div_mod::lemma_mul_mod_noop_left(y * c, cinv, m);
    assert((x * c) * cinv == x * (c * cinv)) by (nonlinear_arith);
    assert((y * c) * cinv == y * (c * cinv)) by (nonlinear_arith);
    vstd::arithmetic::div_mod::lemma_mul_mod_noop_right(x, c * cinv, m);
    vstd::arithmetic::div_mod::lemma_mul_mod_noop_right(y, c * cinv, m);
    vstd::arithmetic::div_mod::lemma_small_mod(x as nat, m as nat);
    vstd::arithmetic::div_mod::lemma_small_mod(y as nat, m as nat);
}

/// The xor-shift steps of the mixing round lose no information.
proof fn lemma_xorshift_invertible(x: u64, y: u64)
    by (bit_vector)
    ensures
        x ^ (x >> 30u64) == y ^ (y >> 30u64) ==> x == y,
        x ^ (x >> 27u64) == y ^ (y >> 27u64) ==> x == y,
        x ^ (x >> 31u64) == y ^ (y >> 31u64) ==> x == y,
{
}

/// Wrapping multiplication by an odd constant with a known inverse is one to one.
proof fn lemma_wrapping_mul_invertible(x: u64, y: u64, c: u64, cinv: u64)
    requires
        ((c as int) * (cinv as int)) % 0x1_0000_0000_0000_0000 == 1,
        vstd::wrapping::u64_specs::wrapping_mul(x, c) == vstd::wrapping::u64_specs::wrapping_mul(y, c),
    ensures
        x == y,
{
    let m: int = 0x1_0000_0000_0000_0000;
    vstd::arithmetic::div_mod::lemma_mod_bound((x as int) * (c as int), m);
    vstd::arithmetic::div_mod::lemma_mod_bound((y as int) * (c as int), m);
    lemma_mul_invertible(x as int, y as int, c as int, cinv as int);
}

/// The mixing round is one to one.
proof fn lemma_mix_invertible(x: u64, y: u64)
    requires
        spec_mix(x) == spec_mix(y),
    ensures
        x == y,
{
    let ax = vstd::wrapping::u64_specs::wrapping_mul(x ^ (x >> 30u64), MIX_MUL_1);
    let ay = vstd::wrapping::u64_specs::wrapping_mul(y ^ (y >> 30u64), MIX_MUL_1);
    let bx = vstd::wrapping::u64_specs::wrapping_mul(ax ^ (ax >> 27u64), MIX_MUL_2);
    let by_ = vstd::wrapping::u64_specs::wrapping_mul(ay ^ (ay >> 27u64), MIX_MUL_2);
    lemma_xorshift_invertible(bx, by_);
    assert(((MIX_MUL_2 as int) * 0x3196_42b2_d24d_8ec3int) % 0x1_0000_0000_0000_0000 == 1);
    lemma_wrapping_mul_invertible(ax ^ (ax >> 27u64), ay ^ (ay >> 27u64), MIX_MUL_2, 0x3196_42b2_d24d_8ec3u64);
    lemma_xorshift_invertible(ax, ay);
    assert(((MIX_MUL_1 as int) * 0x96de_1b17_3f11_9089int) % 0x1_0000_0000_0000_0000 == 1);
    lemma_wrapping_mul_invertible(x ^ (x >> 30u64), y ^ (y >> 30u64), MIX_MUL_1, 0x96de_1b17_3f11_9089u64);
    lemma_xorshift_invertible(x, y);
}

/// The halfmove-clock keys of the clock values 0 to 100 are pairwise distinct.
pub proof fn lemma_rule50_keys_distinct(a: u16, b: u16)
    requires
        a <= 100,
        b <= 100,
        a != b,
    ensures
        spec_rule50_key(a) != spec_rule50_key(b),
{
    let m: int = 0x1_0000_0000_0000_0000;
    let s: int = RULE50_KEY_SEED as int;
    if spec_rule50_key(a) == spec_rule50_key(b) {
        lemma_mix_invertible(spec_splitmix_state(a as nat + 1), spec_splitmix_state(b as nat + 1));
        vstd::arithmetic::div_mod::lemma_mod_bound((a + 2) * s, m);
        vstd::arithmetic::div_mod::lemma_mod_bound((b + 2) * s, m);
        assert((s * 0xf1de_83e1_9937_733dint) % m == 1);
        lemma_mul_invertible(a + 2, b + 2, s, 0xf1de_83e1_9937_733dint);
    }
}

} // verus!
