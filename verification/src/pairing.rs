//! Random signs and random pairings of indices.

use crate::binary32::{Binary32, ONE_BITS};
#[allow(unused_imports)]
use crate::rng::{
    drawn_fraction, lemma_scaled_fraction_below, scaled_fraction, state_after, SplitMix64,
    FRACTIONS,
};
use vstd::prelude::*;

verus! {

/// Bits of `-1.0`.
pub const MINUS_ONE_BITS: u32 = 0xbf80_0000;

/// A pair of indices to swap during a rotation round.
#[derive(Clone, Copy, Debug, PartialEq, Eq, Structural)]
pub struct Swap {
    /// Lower index (generated swaps always have `i < j`).
    pub i: u32,
    /// Higher index.
    pub j: u32,
}

/// The sign that a draw from `state` gives: minus below one half.
pub open spec fn drawn_sign(state: u64) -> Binary32 {
    if 2 * drawn_fraction(state) < FRACTIONS {
        Binary32 { bits: MINUS_ONE_BITS }
    } else {
        Binary32 { bits: ONE_BITS }
    }
}

/// The signs that `n` draws from `state` give.
pub open spec fn drawn_signs(state: u64, n: nat) -> Seq<Binary32> {
    Seq::new(n, |t: int| drawn_sign(state_after(state, t as nat)))
}

/// `p` with the elements at two positions exchanged.
pub open spec fn exchanged(p: Seq<u32>, i: int, j: int) -> Seq<u32> {
    p.update(i, p[j]).update(j, p[i])
}

/// The numbers below `n` after `draws` steps of a Fisher-Yates shuffle: step
/// `t` exchanges position `n - 1 - t` with a drawn position not above it.
pub open spec fn shuffled(n: nat, state: u64, draws: nat) -> Seq<u32>
    decreases draws,
{
    if draws == 0 {
        Seq::new(n, |k: int| k as u32)
    } else {
        let i = n - draws;
        let fraction = drawn_fraction(state_after(state, (draws - 1) as nat));
        exchanged(
            shuffled(n, state, (draws - 1) as nat),
            i,
            scaled_fraction(fraction, (i + 1) as nat) as int,
        )
    }
}

/// The number of draws that a shuffle of `n` elements takes.
pub open spec fn shuffle_draws(n: nat) -> nat {
    if n == 0 {
        0
    } else {
        (n - 1) as nat
    }
}

/// The swap of two indices.
pub open spec fn swap_of(a: u32, b: u32) -> Swap {
    if a < b {
        Swap { i: a, j: b }
    } else {
        Swap { i: b, j: a }
    }
}

/// The swaps of consecutive pairs of elements.
pub open spec fn swaps_of(p: Seq<u32>) -> Seq<Swap> {
    Seq::new((p.len() / 2) as nat, |s: int| swap_of(p[2 * s], p[2 * s + 1]))
}

/// `swaps` lists the swaps of consecutive pairs of `p`, by ascending lower index.
pub open spec fn sorted_swaps_of(swaps: Seq<Swap>, p: Seq<u32>) -> bool {
    &&& forall|a: int, b: int| 0 <= a < b < swaps.len() ==> swaps[a].i < swaps[b].i
    &&& swaps.to_set() == swaps_of(p).to_set()
}

/// `p` holds every number below `n` exactly once.
pub open spec fn permutation(p: Seq<u32>, n: nat) -> bool {
    &&& p.len() == n
    &&& forall|k: int| 0 <= k < n ==> (#[trigger] p[k]) < n
    &&& forall|k: int, l: int| 0 <= k < l < n ==> p[k] != p[l]
    &&& forall|v: u32| v < n ==> #[trigger] p.contains(v)
}

/// One of the swaps has `v` as an index.
pub open spec fn touches(swaps: Seq<Swap>, v: u32) -> bool {
    exists|a: int| 0 <= a < swaps.len() && ((#[trigger] swaps[a]).i == v || swaps[a].j == v)
}

/// The swaps use every index below `n` exactly once.
pub open spec fn matching(swaps: Seq<Swap>, n: nat) -> bool {
    &&& 2 * swaps.len() == n
    &&& forall|a: int| 0 <= a < swaps.len() ==> (#[trigger] swaps[a]).i < swaps[a].j < n
    &&& forall|a: int, b: int| 0 <= a < b < swaps.len() ==> swaps[a].i < swaps[b].i
    &&& forall|a: int, b: int|
        0 <= a < swaps.len() && 0 <= b < swaps.len() && a != b ==> swaps[a].i != swaps[b].j
            && swaps[a].j != swaps[b].j
    &&& forall|v: u32| v < n ==> #[trigger] touches(swaps, v)
}

/// Draws add up.
pub proof fn lemma_state_after_adds(state: u64, a: nat, b: nat)
    ensures
        state_after(state_after(state, a), b) == state_after(state, a + b),
    decreases b,
{
    if b > 0 {
        lemma_state_after_adds(state, a, (b - 1) as nat);
    }
}

/// Exchanging two elements of a permutation gives a permutation.
proof fn lemma_exchanged_permutation(p: Seq<u32>, n: nat, i: int, j: int)
    requires
        permutation(p, n),
        0 <= i < n,
        0 <= j < n,
    ensures
        permutation(exchanged(p, i, j), n),
{
    let r = exchanged(p, i, j);
    assert forall|v: u32| v < n implies #[trigger] r.contains(v) by {
        assert(p.contains(v));
        let k = choose|k: int| 0 <= k < n && #[trigger] p[k] == v;
        let k2 = if k == i {
            j
        } else if k == j {
            i
        } else {
            k
        };
        assert(r[k2] == v);
    }
}

/// A shuffle gives a permutation.
pub proof fn lemma_shuffled_permutation(n: nat, state: u64, draws: nat)
    requires
        n <= u32::MAX,
        draws <= n,
    ensures
        permutation(shuffled(n, state, draws), n),
    decreases draws,
{
    let p = shuffled(n, state, draws);
    if draws == 0 {
        assert forall|v: u32| v < n implies #[trigger] p.contains(v) by {
            assert(p[v as int] == v);
        }
    } else {
        lemma_shuffled_permutation(n, state, (draws - 1) as nat);
        let i = n - draws;
        let s = state_after(state, (draws - 1) as nat);
        crate::rng::lemma_drawn_fraction(s);
        lemma_scaled_fraction_below(drawn_fraction(s), (i + 1) as nat);
        lemma_exchanged_permutation(
            shuffled(n, state, (draws - 1) as nat),
            n,
            i,
            scaled_fraction(drawn_fraction(s), (i + 1) as nat) as int,
        );
    }
}

/// The consecutive pairs of a permutation use every index exactly once.
pub proof fn lemma_sorted_swaps_match(swaps: Seq<Swap>, p: Seq<u32>, n: nat)
    requires
        n % 2 == 0,
        permutation(p, n),
        sorted_swaps_of(swaps, p),
    ensures
        matching(swaps, n),
{
    let pairs = swaps_of(p);
    assert forall|a: int| 0 <= a < swaps.len() implies exists|s: int|
        0 <= s < pairs.len() && pairs[s] == #[trigger] swaps[a] by {
        assert(swaps.to_set().contains(swaps[a]));
        assert(pairs.contains(swaps[a]));
    }
    assert forall|s: int| 0 <= s < pairs.len() implies exists|a: int|
        0 <= a < swaps.len() && swaps[a] == #[trigger] pairs[s] by {
        assert(pairs.to_set().contains(pairs[s]));
        assert(swaps.contains(pairs[s]));
    }
    assert(pairs.no_duplicates());
    assert(swaps.no_duplicates());
    pairs.unique_seq_to_set();
    swaps.unique_seq_to_set();
    assert forall|v: u32| v < n implies #[trigger] touches(swaps, v) by {
        assert(p.contains(v));
        let k = choose|k: int| 0 <= k < n && #[trigger] p[k] == v;
        let s = k / 2;
        assert(p[2 * s] == v || p[2 * s + 1] == v);
        let a = choose|a: int| 0 <= a < swaps.len() && swaps[a] == #[trigger] pairs[s];
        assert(swaps[a].i == v || swaps[a].j == v);
    }
    assert forall|a: int, b: int|
        0 <= a < swaps.len() && 0 <= b < swaps.len() && a != b implies swaps[a].i != swaps[b].j
        && swaps[a].j != swaps[b].j by {
        let s = choose|s: int| 0 <= s < pairs.len() && pairs[s] == #[trigger] swaps[a];
        let t = choose|t: int| 0 <= t < pairs.len() && pairs[t] == #[trigger] swaps[b];
        assert(swaps[a] != swaps[b]);
        assert(s != t);
        assert(p[2 * s] != p[2 * t] && p[2 * s] != p[2 * t + 1]);
        assert(p[2 * s + 1] != p[2 * t] && p[2 * s + 1] != p[2 * t + 1]);
    }
    assert forall|a: int| 0 <= a < swaps.len() implies (#[trigger] swaps[a]).i < swaps[a].j
        < n by {
        let s = choose|s: int| 0 <= s < pairs.len() && pairs[s] == #[trigger] swaps[a];
        assert(p[2 * s] != p[2 * s + 1]);
    }
}

/// Random signs, each `1` or `-1`.
pub fn random_signs(dim: usize, rng: &mut SplitMix64) -> (signs: Vec<Binary32>)
    ensures
        signs@ == drawn_signs(old(rng).state(), dim as nat),
        final(rng).state() == state_after(old(rng).state(), dim as nat),
{
    let ghost s0 = rng.state();
    let mut signs: Vec<Binary32> = Vec::with_capacity(dim);
    let mut t: usize = 0;
    while t < dim
        invariant
            t <= dim,
            signs@ == drawn_signs(s0, t as nat),
            rng.state() == state_after(s0, t as nat),
        decreases dim - t,
    {
        let fraction: u64 = rng.next_fraction();
        let sign: Binary32 = if fraction < FRACTIONS / 2 {
            Binary32::from_bits(MINUS_ONE_BITS)
        } else {
            Binary32::from_bits(ONE_BITS)
        };
        signs.push(sign);
        t += 1;
        assert(signs@ =~= drawn_signs(s0, t as nat));
    }
    signs
}

/// A Fisher-Yates shuffle of the numbers below `n`.
fn shuffle(n: usize, rng: &mut SplitMix64) -> (p: Vec<u32>)
    requires
        n <= u32::MAX,
    ensures
        p@ == shuffled(n as nat, old(rng).state(), shuffle_draws(n as nat)),
        permutation(p@, n as nat),
        final(rng).state() == state_after(old(rng).state(), shuffle_draws(n as nat)),
{
    let ghost s0 = rng.state();
    let mut p: Vec<u32> = Vec::with_capacity(n);
    let mut k: u32 = 0;
    while (k as usize) < n
        invariant
            n <= u32::MAX,
            k <= n,
            p@ =~= Seq::new(k as nat, |l: int| l as u32),
        decreases n - k,
    {
        p.push(k);
        k += 1;
    }
    proof {
        lemma_shuffled_permutation(n as nat, s0, 0);
        assert(p@ =~= shuffled(n as nat, s0, 0));
    }
    let mut left: usize = n;
    while left > 1
        invariant
            n <= u32::MAX,
            left <= n,
            n > 0 ==> left > 0,
            p@.len() == n,
            p@ == shuffled(n as nat, s0, (n - left) as nat),
            permutation(p@, n as nat),
            rng.state() == state_after(s0, (n - left) as nat),
        decreases left,
    {
        let i: usize = left - 1;
        let j: usize = rng.next_below(left);
        let (a, b) = (p[i], p[j]);
        proof {
            lemma_exchanged_permutation(p@, n as nat, i as int, j as int);
        }
        p[i] = b;
        p[j] = a;
        left = left - 1;
    }
    p
}

/// A random pairing of all `n` indices into `n / 2` swaps, each index used
/// once, sorted by the lower index for a more sequential access pattern.
pub fn random_swaps(n: usize, rng: &mut SplitMix64) -> (swaps: Vec<Swap>)
    requires
        n <= u32::MAX,
    ensures
        sorted_swaps_of(
            swaps@,
            shuffled(n as nat, old(rng).state(), shuffle_draws(n as nat)),
        ),
        n % 2 == 0 ==> matching(swaps@, n as nat),
        final(rng).state() == state_after(old(rng).state(), shuffle_draws(n as nat)),
{
    let p: Vec<u32> = shuffle(n, rng);
    let ghost pairs = swaps_of(p@);
    // The partner of every index; an index without one keeps partner 0.
    let mut partner: Vec<u32> = Vec::with_capacity(n);
    let mut k: usize = 0;
    while k < n
        invariant
            k <= n,
            partner@.len() == k,
            forall|l: int| 0 <= l < k ==> partner@[l] == 0,
        decreases n - k,
    {
        partner.push(0);
        k += 1;
    }
    let mut s: usize = 0;
    while s < n / 2
        invariant
            s <= n / 2,
            permutation(p@, n as nat),
            partner@.len() == n,
            forall|t: int|
                0 <= t < s ==> partner@[p@[2 * t] as int] == #[trigger] p@[2 * t + 1],
            forall|t: int|
                0 <= t < s ==> partner@[p@[2 * t + 1] as int] == #[trigger] p@[2 * t],
            forall|k: int| 2 * s <= k < n ==> partner@[#[trigger] p@[k] as int] == 0,
        decreases n / 2 - s,
    {
        let a: u32 = p[2 * s];
        let b: u32 = p[2 * s + 1];
        partner[a as usize] = b;
        partner[b as usize] = a;
        s += 1;
    }
    let mut swaps: Vec<Swap> = Vec::with_capacity(n / 2);
    let mut i: usize = 0;
    while i < n
        invariant
            i <= n,
            n <= u32::MAX,
            s == n / 2,
            permutation(p@, n as nat),
            pairs == swaps_of(p@),
            partner@.len() == n,
            forall|t: int|
                0 <= t < s ==> partner@[p@[2 * t] as int] == #[trigger] p@[2 * t + 1],
            forall|t: int|
                0 <= t < s ==> partner@[p@[2 * t + 1] as int] == #[trigger] p@[2 * t],
            forall|k: int| 2 * s <= k < n ==> partner@[#[trigger] p@[k] as int] == 0,
            forall|a: int| 0 <= a < swaps@.len() ==> (#[trigger] swaps@[a]).i < i,
            forall|a: int, b: int| 0 <= a < b < swaps@.len() ==> swaps@[a].i < swaps@[b].i,
            forall|a: int| 0 <= a < swaps@.len() ==> pairs.contains(#[trigger] swaps@[a]),
            forall|t: int|
                0 <= t < pairs.len() && (#[trigger] pairs[t]).i < i ==> swaps@.contains(pairs[t]),
        decreases n - i,
    {
        let ghost before = swaps@;
        let j: u32 = partner[i];
        proof {
            assert(p@.contains(i as u32));
            let k = choose|k: int| 0 <= k < n && #[trigger] p@[k] == i as u32;
            let t = k / 2;
            if k < 2 * s {
                assert(pairs[t] == swap_of(p@[2 * t], p@[2 * t + 1]));
                if k == 2 * t {
                    assert(p@[2 * t + 1] == j);
                } else {
                    assert(k == 2 * t + 1);
                    assert(p@[2 * t] == j);
                }
                assert(p@[2 * t] != p@[2 * t + 1]);
            } else {
                assert(j == 0);
            }
            assert forall|u: int| 0 <= u < pairs.len() && (#[trigger] pairs[u]).i == i implies {
                &&& j > i
                &&& pairs[u] == (Swap { i: i as u32, j })
            } by {
                assert(pairs[u] == swap_of(p@[2 * u], p@[2 * u + 1]));
                assert(p@[2 * u] != p@[2 * u + 1]);
                if p@[2 * u] == i {
                    assert(partner@[p@[2 * u] as int] == p@[2 * u + 1]);
                } else {
                    assert(partner@[p@[2 * u + 1] as int] == p@[2 * u]);
                }
            }
        }
        if j as usize > i {
            let swap: Swap = Swap { i: i as u32, j };
            proof {
                let k = choose|k: int| 0 <= k < n && #[trigger] p@[k] == i as u32;
                assert(pairs[k / 2] == swap);
            }
            swaps.push(swap);
            proof {
                assert(swaps@[before.len() as int] == swap);
                assert forall|t: int|
                    0 <= t < pairs.len() && (#[trigger] pairs[t]).i < i + 1 implies swaps@.contains(
                    pairs[t],
                ) by {
                    if pairs[t].i < i {
                        assert(before.contains(pairs[t]));
                        let a = choose|a: int| 0 <= a < before.len() && before[a] == pairs[t];
                        assert(swaps@[a] == pairs[t]);
                    }
                }
            }
        }
        i += 1;
    }
    proof {
        assert forall|w: Swap| swaps@.to_set().contains(w) == pairs.to_set().contains(w) by {
            if pairs.contains(w) {
                let t = choose|t: int| 0 <= t < pairs.len() && pairs[t] == w;
                assert(pairs[t] == swap_of(p@[2 * t], p@[2 * t + 1]));
                assert(pairs[t].i < n);
            }
            if swaps@.contains(w) {
                let a = choose|a: int| 0 <= a < swaps@.len() && swaps@[a] == w;
                assert(pairs.contains(swaps@[a]));
            }
        }
        assert(swaps@.to_set() =~= pairs.to_set());
        if n % 2 == 0 {
            lemma_sorted_swaps_match(swaps@, p@, n as nat);
        }
    }
    swaps
}

} // verus!
