//! SplitMix64, a tiny, fast, well-distributed pseudo-random generator.
//!
//! Its fractions of one are 53-bit numerators over `2^53`, and a bounded draw
//! is such a fraction times the bound, rounded to the 53 significant digits of
//! double precision.

use crate::rounding::nearest;
use vstd::arithmetic::div_mod::{lemma_fundamental_div_mod, lemma_mod_bound};
use vstd::prelude::*;

verus! {

/// What the state advances by: `2^64` over the golden ratio.
pub const GAMMA: u64 = 0x9e37_79b9_7f4a_7c15;

/// First multiplier of the output mix.
pub const MIX_1: u64 = 0xbf58_476d_1ce4_e5b9;

/// Second multiplier of the output mix.
pub const MIX_2: u64 = 0x94d0_49bb_1331_11eb;

/// `2^53`, the number of fractions that a draw chooses from.
pub const FRACTIONS: u64 = 0x20_0000_0000_0000;

/// The state after one draw.
pub open spec fn next_state(state: u64) -> u64 {
    state.wrapping_add(GAMMA)
}

/// The state after `draws` draws.
pub open spec fn state_after(state: u64, draws: nat) -> u64
    decreases draws,
{
    if draws == 0 {
        state
    } else {
        next_state(state_after(state, (draws - 1) as nat))
    }
}

/// The scrambled form of a state.
pub open spec fn mixed(z: u64) -> u64 {
    let a = (z ^ (z >> 30)).wrapping_mul(MIX_1);
    let b = (a ^ (a >> 27)).wrapping_mul(MIX_2);
    b ^ (b >> 31)
}

/// The number that a draw from `state` gives.
pub open spec fn drawn(state: u64) -> u64 {
    mixed(next_state(state))
}

/// The numerator over `2^53` that a draw from `state` gives: the top 53 bits.
pub open spec fn drawn_fraction(state: u64) -> nat {
    (drawn(state) / 2048) as nat
}

/// `v` rounded to a multiple of the least power-of-two multiple of `step` that
/// leaves it at most 53 digits, ties to even.
pub open spec fn rounded_to_step(v: nat, step: nat) -> nat
    decreases v - step,
{
    if step == 0 || v < step * FRACTIONS {
        nearest(v, step) * step
    } else {
        rounded_to_step(v, 2 * step)
    }
}

/// `v` rounded to 53 significant binary digits, ties to even.
pub open spec fn rounded53(v: nat) -> nat {
    rounded_to_step(v, 1)
}

/// The integral part of `fraction / 2^53 * n`, where `n` and the product are
/// rounded to 53 digits.
pub open spec fn scaled_fraction(fraction: nat, n: nat) -> nat {
    rounded53(fraction * rounded53(n)) / FRACTIONS as nat
}

/// Rounding to 53 digits, on machine integers.
fn round53(v: u128) -> (r: u128)
    requires
        v < 0x80_0000_0000_0000_0000_0000_0000_0000,
    ensures
        r == rounded53(v as nat),
        r <= 2 * v,
{
    let mut step: u128 = 1;
    while v >= step * 0x20_0000_0000_0000
        invariant
            v < 0x80_0000_0000_0000_0000_0000_0000_0000,
            0 < step,
            step == 1 || step * 0x10_0000_0000_0000 <= v,
            rounded53(v as nat) == rounded_to_step(v as nat, step as nat),
        decreases v - step,
    {
        step = step * 2;
    }
    let q: u128 = v / step;
    let rem: u128 = v % step;
    proof {
        lemma_fundamental_div_mod(v as int, step as int);
        assert(step * q == q * step) by (nonlinear_arith);
        assert((q + 1) * step <= v + step) by (nonlinear_arith)
            requires
                v == q * step + rem,
                rem >= 0,
        ;
        if step == 1 {
            assert(q * step == v);
        }
    }
    if rem < step - rem || (rem == step - rem && q % 2 == 0) {
        q * step
    } else {
        (q + 1) * step
    }
}

/// A product of a fraction and a bound keeps below the bound when it is rounded
/// to 53 digits.
pub proof fn lemma_scaled_fraction_below(fraction: nat, n: nat)
    requires
        fraction < FRACTIONS,
        0 < n <= FRACTIONS,
    ensures
        scaled_fraction(fraction, n) < n,
{
    lemma_rounded_small(n);
    let v = fraction * n;
    assert(v <= n * FRACTIONS - n) by (nonlinear_arith)
        requires
            v == fraction * n,
            fraction <= FRACTIONS - 1,
            n >= 0,
    ;
    lemma_rounded_below(v, n, 1);
    let r = rounded53(v);
    lemma_fundamental_div_mod(r as int, FRACTIONS as int);
    lemma_mod_bound(r as int, FRACTIONS as int);
    let q = r / FRACTIONS as nat;
    assert(q < n) by (nonlinear_arith)
        requires
            r == FRACTIONS * q + r % FRACTIONS as nat,
            r % FRACTIONS as nat >= 0,
            r < n * FRACTIONS,
    ;
}

/// Numbers of at most 53 digits are not changed by rounding.
pub proof fn lemma_rounded_small(n: nat)
    requires
        n <= FRACTIONS,
    ensures
        rounded53(n) == n,
{
    if n < FRACTIONS {
        assert(n / 1 == n && n % 1 == 0);
    } else {
        assert(rounded_to_step(n, 1) == rounded_to_step(n, 2));
        assert(rounded_to_step(n, 2) == nearest(n, 2) * 2);
    }
}

/// Rounding a value that is at least `n` short of `n * 2^53` does not reach
/// `n * 2^53`.
proof fn lemma_rounded_below(v: nat, n: nat, step: nat)
    requires
        0 < n <= FRACTIONS,
        v <= n * FRACTIONS - n,
        step > 0,
        step == 1 || step * FRACTIONS <= 2 * v,
    ensures
        rounded_to_step(v, step) < n * FRACTIONS,
    decreases v - step,
{
    let big = FRACTIONS as nat;
    if v < step * big {
        let f = v / step;
        let r = v % step;
        lemma_fundamental_div_mod(v as int, step as int);
        lemma_mod_bound(v as int, step as int);
        assert(nearest(v, step) == f || nearest(v, step) == f + 1);
        assert(step * f == f * step) by (nonlinear_arith);
        if nearest(v, step) == f {
        } else {
            // Rounded up by step - r <= step / 2, which is less than n.
            assert(2 * r >= step);
            assert((f + 1) * step == v - r + step) by (nonlinear_arith)
                requires
                    v == f * step + r,
            ;
            assert(step < 2 * n || step == 1) by (nonlinear_arith)
                requires
                    step == 1 || step * big <= 2 * v,
                    v <= n * big - n,
                    n > 0,
                    big > 0,
            ;
            if step == 1 {
                assert(r == 0);
            }
        }
    } else {
        lemma_rounded_below(v, n, 2 * step);
    }
}

/// Fractions are below one.
pub proof fn lemma_drawn_fraction(state: u64)
    ensures
        drawn_fraction(state) < FRACTIONS,
{
}

/// The generator.
pub struct SplitMix64 {
    state: u64,
}

impl SplitMix64 {
    /// The current state.
    pub closed spec fn state(self) -> u64 {
        self.state
    }

    /// A generator whose state is the seed.
    pub fn new(seed: u64) -> (rng: SplitMix64)
        ensures
            rng.state() == seed,
    {
        SplitMix64 { state: seed }
    }

    /// The next 64 bits.
    pub fn next_u64(&mut self) -> (r: u64)
        ensures
            r == drawn(old(self).state()),
            final(self).state() == next_state(old(self).state()),
    {
        self.state = self.state.wrapping_add(GAMMA);
        let mut z: u64 = self.state;
        z = (z ^ (z >> 30)).wrapping_mul(MIX_1);
        z = (z ^ (z >> 27)).wrapping_mul(MIX_2);
        z ^ (z >> 31)
    }

    /// A uniform fraction in `[0, 1)`, as its numerator over `2^53`.
    pub fn next_fraction(&mut self) -> (r: u64)
        ensures
            r == drawn_fraction(old(self).state()),
            r < FRACTIONS,
            final(self).state() == next_state(old(self).state()),
    {
        self.next_u64() / 2048
    }

    /// A uniform integer in `[0, n)`, for bounds that double precision holds
    /// exactly.
    pub fn next_below(&mut self, n: usize) -> (r: usize)
        ensures
            scaled_fraction(drawn_fraction(old(self).state()), n as nat) <= usize::MAX ==> r
                == scaled_fraction(drawn_fraction(old(self).state()), n as nat),
            scaled_fraction(drawn_fraction(old(self).state()), n as nat) > usize::MAX ==> r
                == usize::MAX,
            0 < n <= FRACTIONS ==> r < n,
            final(self).state() == next_state(old(self).state()),
    {
        let k: u64 = self.next_fraction();
        let bound: u128 = round53(n as u128);
        proof {
            assert(k * bound < 0x80_0000_0000_0000_0000_0000_0000_0000) by (nonlinear_arith)
                requires
                    k < 0x20_0000_0000_0000,
                    bound <= 0x2_0000_0000_0000_0000,
                    k >= 0,
                    bound >= 0,
            ;
            if 0 < n <= FRACTIONS {
                lemma_scaled_fraction_below(k as nat, n as nat);
            }
        }
        let r: u128 = round53(k as u128 * bound) / 0x20_0000_0000_0000;
        if r > usize::MAX as u128 {
            usize::MAX
        } else {
            r as usize
        }
    }
}

} // verus!
