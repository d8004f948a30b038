//! What the rotation of a seed is made of: which draws of the generator give its
//! signs and its swaps, and how.

#[allow(unused_imports)]
use crate::binary32::{Binary32, ONE_BITS};
#[allow(unused_imports)]
use crate::laws::law_output_dimension;
#[allow(unused_imports)]
use crate::pairing::{
    drawn_sign, drawn_signs, exchanged, lemma_shuffled_permutation, lemma_sorted_swaps_match,
    lemma_state_after_adds, permutation, shuffle_draws, shuffled, sorted_swaps_of, swap_of,
    swaps_of, Swap, MINUS_ONE_BITS,
};
#[allow(unused_imports)]
use crate::precision::{lemma_nearest_error, lemma_nearest_whole};
#[allow(unused_imports)]
use crate::rng::{
    drawn, drawn_fraction, lemma_drawn_fraction, lemma_rounded_small, lemma_scaled_fraction_below,
    mixed, next_state, rounded53, rounded_to_step, scaled_fraction, state_after, FRACTIONS, GAMMA,
    MIX_1, MIX_2,
};
#[allow(unused_imports)]
use crate::rotation::{round_draws, round_state, seeded, RotationModel, SEED_MASK};
#[allow(unused_imports)]
use crate::rounding::nearest;
use vstd::arithmetic::div_mod::{
    lemma_add_mod_noop_right, lemma_fundamental_div_mod, lemma_mod_bound,
    lemma_mod_multiples_vanish, lemma_mul_mod_noop_left,
};
use vstd::arithmetic::power2::{
    lemma2_to64, lemma2_to64_rest, lemma_pow2_adds, lemma_pow2_pos, lemma_pow2_unfold, pow2,
};
use vstd::prelude::*;

verus! {

/// One draw adds a constant to the state.
proof fn lemma_next_state(state: u64)
    ensures
        next_state(state) as int == (state + GAMMA) % 0x1_0000_0000_0000_0000,
{
}

/// The state of a generator after `draws` draws, in closed form.
pub proof fn law_generator_state(state: u64, draws: nat)
    ensures
        state_after(state, draws) as int == (state + draws * GAMMA) % 0x1_0000_0000_0000_0000,
    decreases draws,
{
    let big = 0x1_0000_0000_0000_0000int;
    if draws > 0 {
        let k = (draws - 1) as nat;
        law_generator_state(state, k);
        let (a, g) = (state + k * GAMMA, GAMMA as int);
        lemma_next_state(state_after(state, k));
        lemma_add_mod_noop_right(g, a, big);
        assert(draws * GAMMA == k * GAMMA + GAMMA) by (nonlinear_arith)
            requires
                draws == k + 1,
        ;
    } else {
        assert(0 * GAMMA == 0);
    }
}

/// Draw `t` of round `r` of the rotation that a seed gives for `dim` output
/// dimensions: a round takes `2 * dim - 1` draws.
#[verifier::opaque]
pub open spec fn round_draw(seed: u64, dim: nat, r: nat, t: nat) -> u64 {
    let state = (seed ^ SEED_MASK) + (r * (2 * dim - 1) + t + 1) * GAMMA;
    mixed((state % 0x1_0000_0000_0000_0000) as u64)
}

/// The first `dim - 1` draws of a round.
pub open spec fn shuffling_draws(seed: u64, dim: nat, r: nat) -> Seq<u64> {
    Seq::new((dim - 1) as nat, |t: int| round_draw(seed, dim, r, t as nat))
}

/// A draw of a round by the state at the start of the round.
proof fn lemma_round_draw(seed: u64, dim: nat, r: nat, t: nat)
    requires
        dim > 0,
    ensures
        drawn(state_after(round_state(seed, dim, r), t)) == round_draw(seed, dim, r, t),
{
    reveal(round_draw);
    let s = seed ^ SEED_MASK;
    let done = r * round_draws(dim);
    lemma_state_after_adds(s, done, t);
    assert(round_draws(dim) == 2 * dim - 1);
    law_generator_state(s, done + t + 1);
    assert(state_after(s, done + t + 1) == next_state(state_after(s, done + t)));
    assert(done + t + 1 == r * (2 * dim - 1) + t + 1);
}

/// Rounding to a multiple of `step` does not go below a multiple of `step * c`.
proof fn lemma_multiple_kept(v: nat, step: nat, c: nat, q: nat, rem: nat, top: nat, m: nat)
    requires
        v == step * q + rem,
        rem < step,
        top * (step * c) <= v,
        m >= q,
    ensures
        m * step >= top * (step * c),
{
    let t = top * c;
    assert(top * (step * c) == step * t) by (nonlinear_arith)
        requires
            t == top * c,
    ;
    assert(t <= q) by (nonlinear_arith)
        requires
            step * t <= step * q + rem,
            rem < step,
    ;
    assert(m * step >= step * t) by (nonlinear_arith)
        requires
            m >= t,
    ;
}

/// Rounding to 53 digits moves a number by at most one part in `2^53`, and not
/// below a multiple of `2^53`.
proof fn lemma_rounded_digits(v: nat, e: nat, top: nat)
    requires
        e <= 53,
        v < 0x20_0000_0000_0000 * 0x20_0000_0000_0000,
        e == 0 || pow2(e) * FRACTIONS <= 2 * v,
        top * FRACTIONS <= v,
    ensures
        rounded_to_step(v, pow2(e)) * FRACTIONS <= v * FRACTIONS + v,
        rounded_to_step(v, pow2(e)) >= top * FRACTIONS,
    decreases 53 - e,
{
    lemma2_to64();
    lemma2_to64_rest();
    let (step, big) = (pow2(e), FRACTIONS as nat);
    lemma_pow2_pos(e);
    if v < step * big {
        let f = (53 - e) as nat;
        lemma_pow2_adds(e, f);
        let c = pow2(f);
        lemma_nearest_error(v, step);
        lemma_fundamental_div_mod(v as int, step as int);
        lemma_mod_bound(v as int, step as int);
        let (m, q, rem) = (nearest(v, step), v / step, v % step);
        assert(m >= q);
        if e == 0 {
            assert(step == 1);
            lemma_nearest_whole(v, 1);
            assert(v * 1 == v);
        }
        lemma_multiple_kept(v, step, c, q, rem, top, m);
        let p = m * step;
        if e > 0 {
            assert(2 * (p * big) <= 2 * (v * big) + step * big) by (nonlinear_arith)
                requires
                    2 * p <= 2 * v + step,
            ;
        }
    } else {
        if e == 53 {
            assert(step * big == 0x20_0000_0000_0000 * 0x20_0000_0000_0000);
        }
        lemma_pow2_unfold(e + 1);
        assert(pow2(e + 1) * big == 2 * (step * big)) by (nonlinear_arith)
            requires
                pow2(e + 1) == 2 * step,
        ;
        lemma_rounded_digits(v, e + 1, top);
    }
}

/// `j` is the integral part of `f / 2^53` times `left`, as it is computed in
/// double precision: where the product is not below a whole number by more than
/// one part in `2^53`, it may be that number.
pub open spec fn drawn_position(f: int, left: int, j: int) -> bool {
    &&& 0 <= j < left
    &&& f * left < (j + 1) * 0x20_0000_0000_0000
    &&& j * 0x20_0000_0000_0000 * 0x20_0000_0000_0000 <= f * left * 0x20_0000_0000_0000 + f * left
}

/// The computed position of a draw.
proof fn lemma_drawn_position(f: nat, left: nat)
    requires
        f < FRACTIONS,
        0 < left <= FRACTIONS,
    ensures
        drawn_position(f as int, left as int, scaled_fraction(f, left) as int),
{
    lemma_scaled_fraction_below(f, left);
    lemma_rounded_small(left);
    lemma2_to64();
    let (v, big) = (f * left, FRACTIONS as nat);
    assert(v < big * big) by (nonlinear_arith)
        requires
            v == f * left,
            f < big,
            0 < left <= big,
    ;
    let top = v / big;
    assert(top * big <= v < (top + 1) * big);
    lemma_rounded_digits(v, 0, top);
    let r = rounded53(v);
    assert(r == rounded_to_step(v, pow2(0)));
    let j = r / big;
    assert(j * big <= r < (j + 1) * big);
    assert(j >= top);
    assert((j + 1) * big >= (top + 1) * big) by (nonlinear_arith)
        requires
            j >= top,
    ;
    assert(j * big * big <= r * big) by (nonlinear_arith)
        requires
            j * big <= r,
    ;
}

/// A draw below `n` is the integral part of a fraction of `n`, whose numerator
/// over `2^53` is in the top 53 bits of what the state gives.
pub proof fn law_bounded_draw(state: u64, n: nat)
    requires
        0 < n <= FRACTIONS,
    ensures
        drawn_fraction(state) == drawn(state) as int / 2048,
        drawn_position(
            drawn(state) as int / 2048,
            n as int,
            scaled_fraction(drawn_fraction(state), n) as int,
        ),
{
    lemma_drawn_fraction(state);
    lemma_drawn_position(drawn_fraction(state), n);
}

/// `after` is `before` with the elements at positions `i` and `j` exchanged.
pub open spec fn exchange(before: Seq<u32>, after: Seq<u32>, i: int, j: int) -> bool {
    &&& after.len() == before.len()
    &&& after[i] == before[j]
    &&& after[j] == before[i]
    &&& forall|k: int| 0 <= k < before.len() && k != i && k != j ==> after[k] == before[k]
}

/// `after` is `before` with the last of its first `left` elements exchanged with
/// the one at the position that the top 53 bits of a draw give.
pub open spec fn shuffle_step(before: Seq<u32>, after: Seq<u32>, left: int, draw: u64) -> bool {
    exists|j: int|
        #[trigger] drawn_position(draw as int / 2048, left, j) && exchange(
            before,
            after,
            left - 1,
            j,
        )
}

/// `lists` holds the lists of a shuffle of the numbers below `n`, from the
/// numbers in order on: each step exchanges the last position that was not
/// exchanged yet with the position that the top 53 bits of a draw give.
pub open spec fn shuffle_lists(lists: Seq<Seq<u32>>, n: nat, draws: Seq<u64>) -> bool {
    &&& lists.len() == n
    &&& draws.len() == n - 1
    &&& lists[0].len() == n
    &&& forall|k: int| 0 <= k < n ==> #[trigger] lists[0][k] == k
    &&& forall|t: int|
        0 <= t < n - 1 ==> shuffle_step(#[trigger] lists[t], lists[t + 1], n - t, draws[t])
}

/// One step of the shuffle from a state.
proof fn lemma_shuffle_step(n: nat, state: u64, t: nat, f: nat)
    requires
        n <= u32::MAX,
        t + 1 < n,
        f == drawn_fraction(state_after(state, t)),
    ensures
        ({
            let j = scaled_fraction(f, (n - t) as nat) as int;
            let (before, after) = (shuffled(n, state, t), shuffled(n, state, t + 1));
            &&& drawn_position(f as int, n - t, j)
            &&& exchange(before, after, n - 1 - t, j)
        }),
{
    lemma_drawn_fraction(state_after(state, t));
    lemma_drawn_position(f, (n - t) as nat);
    let j = scaled_fraction(f, (n - t) as nat) as int;
    lemma_shuffled_permutation(n, state, t);
    let before = shuffled(n, state, t);
    assert(shuffled(n, state, t + 1) == exchanged(before, n - 1 - t, j));
}

/// The lists of the shuffle from a state.
proof fn lemma_shuffle_lists(n: nat, state: u64, draws: Seq<u64>) -> (lists: Seq<Seq<u32>>)
    requires
        0 < n <= u32::MAX,
        draws.len() == n - 1,
        forall|t: int|
            0 <= t < n - 1 ==> (#[trigger] draws[t]) as int / 2048 == drawn_fraction(
                state_after(state, t as nat),
            ),
    ensures
        shuffle_lists(lists, n, draws),
        lists.last() == shuffled(n, state, shuffle_draws(n)),
{
    let lists = Seq::new(n, |t: int| shuffled(n, state, t as nat));
    assert forall|t: int| 0 <= t < n - 1 implies shuffle_step(
        #[trigger] lists[t],
        lists[t + 1],
        n - t,
        draws[t],
    ) by {
        let f = drawn_fraction(state_after(state, t as nat));
        lemma_shuffle_step(n, state, t as nat, f);
        let j = scaled_fraction(f, (n - t) as nat) as int;
        assert(draws[t] as int / 2048 == f);
        assert(drawn_position(draws[t] as int / 2048, n - t, j));
    }
    lists
}

/// One of the swaps is that of the indices `a` and `b`.
pub open spec fn paired(swaps: Seq<Swap>, a: u32, b: u32) -> bool {
    exists|k: int|
        0 <= k < swaps.len() && (#[trigger] swaps[k]).i < swaps[k].j && (swaps[k].i == a
            && swaps[k].j == b || swaps[k].i == b && swaps[k].j == a)
}

/// `swaps` pairs the elements of `p` two by two, in order of the lower index.
pub open spec fn pairs_up(swaps: Seq<Swap>, p: Seq<u32>) -> bool {
    &&& 2 * swaps.len() == p.len()
    &&& forall|a: int, b: int| 0 <= a < b < swaps.len() ==> swaps[a].i < swaps[b].i
    &&& forall|c: int, d: int|
        0 <= c < p.len() && c % 2 == 0 && d == c + 1 ==> paired(
            swaps,
            #[trigger] p[c],
            #[trigger] p[d],
        )
}

/// The swaps of a permutation pair up its elements.
proof fn lemma_pairs_up(swaps: Seq<Swap>, p: Seq<u32>, n: nat)
    requires
        n % 2 == 0,
        permutation(p, n),
        sorted_swaps_of(swaps, p),
    ensures
        pairs_up(swaps, p),
{
    lemma_sorted_swaps_match(swaps, p, n);
    let pairs = swaps_of(p);
    assert forall|c: int, d: int|
        0 <= c < p.len() && c % 2 == 0 && d == c + 1 implies paired(
        swaps,
        #[trigger] p[c],
        #[trigger] p[d],
    ) by {
        let s = c / 2;
        assert(c == 2 * s);
        assert(pairs.to_set().contains(pairs[s]));
        assert(swaps.contains(pairs[s]));
        let a = choose|a: int| 0 <= a < swaps.len() && swaps[a] == pairs[s];
        assert(p[2 * s] != p[2 * s + 1]);
        assert(pairs[s] == swap_of(p[2 * s], p[2 * s + 1]));
        assert(swaps[a] == swap_of(p[2 * s], p[2 * s + 1]));
    }
}

/// The sign that draw `t` of round `r` gives: minus one in the lower half of the
/// range, one in the upper.
pub open spec fn sign_of_draw(sign: Binary32, seed: u64, dim: nat, r: nat, t: int) -> bool {
    sign.bits == if round_draw(seed, dim, r, t as nat) < 0x8000_0000_0000_0000 {
        MINUS_ONE_BITS
    } else {
        ONE_BITS
    }
}

/// What is known of a round of the rotation of a seed.
proof fn lemma_seeded_parts(
    m: RotationModel<Binary32>,
    input_dim: nat,
    rounds: nat,
    seed: u64,
    r: nat,
)
    requires
        seeded(m, input_dim, rounds, seed),
        r < rounds,
    ensures
        m.dim > 0,
        m.dim % 2 == 0,
        m.dim % 64 == 0 && m.dim >= input_dim,
        m.dim == 64 || m.dim < input_dim + 64,
        sorted_swaps_of(
            m.swaps[r as int],
            shuffled(m.dim, round_state(seed, m.dim, r), shuffle_draws(m.dim)),
        ),
        m.signs[r as int] == drawn_signs(
            state_after(round_state(seed, m.dim, r), shuffle_draws(m.dim)),
            m.dim,
        ),
{
    law_output_dimension(input_dim, 0);
    law_output_dimension(input_dim, (m.dim - 64) as nat);
    let n = m.dim;
    assert(n % 64 == 0 ==> n % 2 == 0);
}

/// A sign of a round.
proof fn lemma_seeded_sign(n: nat, seed: u64, r: nat, k: nat)
    requires
        n > 0,
    ensures
        ({
            let first = state_after(round_state(seed, n, r), shuffle_draws(n));
            drawn_sign(state_after(first, k)).bits == if round_draw(
                seed,
                n,
                r,
                (n - 1 + k) as nat,
            ) < 0x8000_0000_0000_0000 {
                MINUS_ONE_BITS
            } else {
                ONE_BITS
            }
        }),
{
    let s = round_state(seed, n, r);
    lemma_state_after_adds(s, shuffle_draws(n), k);
    lemma_round_draw(seed, n, r, (n - 1 + k) as nat);
    lemma_drawn_sign(
        state_after(state_after(s, shuffle_draws(n)), k),
        round_draw(seed, n, r, (n - 1 + k) as nat),
    );
}

/// The signs of a round.
proof fn lemma_seeded_signs(signs: Seq<Binary32>, n: nat, seed: u64, r: nat)
    requires
        n > 0,
        signs == drawn_signs(state_after(round_state(seed, n, r), shuffle_draws(n)), n),
    ensures
        signs.len() == n,
        forall|k: int| 0 <= k < n ==> sign_of_draw(#[trigger] signs[k], seed, n, r, n - 1 + k),
{
    assert forall|k: int| 0 <= k < n implies sign_of_draw(
        #[trigger] signs[k],
        seed,
        n,
        r,
        n - 1 + k,
    ) by {
        lemma_seeded_sign(n, seed, r, k as nat);
    }
}

/// The swaps of a round.
proof fn lemma_seeded_swaps(swaps: Seq<Swap>, n: nat, seed: u64, r: nat)
    requires
        0 < n <= u32::MAX,
        n % 2 == 0,
        sorted_swaps_of(swaps, shuffled(n, round_state(seed, n, r), shuffle_draws(n))),
    ensures
        exists|lists: Seq<Seq<u32>>| #[trigger]
            shuffle_lists(lists, n, shuffling_draws(seed, n, r)) && pairs_up(swaps, lists.last()),
{
    let s = round_state(seed, n, r);
    let draws = shuffling_draws(seed, n, r);
    assert forall|t: int| 0 <= t < n - 1 implies (#[trigger] draws[t]) as int / 2048
        == drawn_fraction(state_after(s, t as nat)) by {
        lemma_round_draw(seed, n, r, t as nat);
    }
    let lists = lemma_shuffle_lists(n, s, draws);
    lemma_shuffled_permutation(n, s, shuffle_draws(n));
    lemma_pairs_up(swaps, lists.last(), n);
}

/// The rotation of a seed, draw by draw: each round shuffles all indices by its
/// first `dim - 1` draws and pairs them up, and each of its other `dim` draws
/// gives a sign.
pub proof fn law_seeded_by_draws(
    m: RotationModel<Binary32>,
    input_dim: nat,
    rounds: nat,
    seed: u64,
    r: nat,
)
    requires
        seeded(m, input_dim, rounds, seed),
        m.dim <= u32::MAX,
        r < rounds,
    ensures
        m.dim % 64 == 0 && m.dim >= input_dim,
        m.dim == 64 || m.dim < input_dim + 64,
        m.rounds == rounds,
        m.swaps.len() == rounds,
        m.signs.len() == rounds,
        exists|lists: Seq<Seq<u32>>| #[trigger]
            shuffle_lists(lists, m.dim, shuffling_draws(seed, m.dim, r)) && pairs_up(
                m.swaps[r as int],
                lists.last(),
            ),
        m.signs[r as int].len() == m.dim,
        forall|k: int|
            0 <= k < m.dim ==> sign_of_draw(
                #[trigger] m.signs[r as int][k],
                seed,
                m.dim,
                r,
                m.dim - 1 + k,
            ),
{
    lemma_seeded_parts(m, input_dim, rounds, seed, r);
    let (swaps, signs) = (m.swaps[r as int], m.signs[r as int]);
    lemma_seeded_swaps(swaps, m.dim, seed, r);
    lemma_seeded_signs(signs, m.dim, seed, r);
}

/// The sign of a draw: the top bit tells.
proof fn lemma_drawn_sign(state: u64, d: u64)
    requires
        d == drawn(state),
    ensures
        drawn_sign(state).bits == if d < 0x8000_0000_0000_0000 {
            MINUS_ONE_BITS
        } else {
            ONE_BITS
        },
{
}

/// Random signs, one for each draw: minus one where the top bit of the draw is
/// zero, one where it is not.
pub proof fn law_signs_by_draws(state: u64, n: nat, k: nat)
    requires
        k < n,
    ensures
        drawn_signs(state, n).len() == n,
        drawn_signs(state, n)[k as int].bits == if drawn(state_after(state, k))
            < 0x8000_0000_0000_0000 {
            MINUS_ONE_BITS
        } else {
            ONE_BITS
        },
{
    lemma_drawn_sign(state_after(state, k), drawn(state_after(state, k)));
}

/// Random swaps: the shuffle of all indices by as many draws as it has steps,
/// paired up.
pub proof fn law_swaps_by_draws(swaps: Seq<Swap>, n: nat, state: u64, draws: Seq<u64>)
    requires
        0 < n <= u32::MAX,
        n % 2 == 0,
        sorted_swaps_of(swaps, shuffled(n, state, shuffle_draws(n))),
        draws.len() == n - 1,
        forall|t: int|
            0 <= t < n - 1 ==> #[trigger] draws[t] == drawn(state_after(state, t as nat)),
    ensures
        exists|lists: Seq<Seq<u32>>| #[trigger]
            shuffle_lists(lists, n, draws) && pairs_up(swaps, lists.last()),
{
    assert forall|t: int| 0 <= t < n - 1 implies (#[trigger] draws[t]) as int / 2048
        == drawn_fraction(state_after(state, t as nat)) by {
        assert(draws[t] == drawn(state_after(state, t as nat)));
    }
    let lists = lemma_shuffle_lists(n, state, draws);
    lemma_shuffled_permutation(n, state, shuffle_draws(n));
    lemma_pairs_up(swaps, lists.last(), n);
}

/// What the last elements of a shuffle hold stays.
proof fn lemma_shuffled_kept(n: nat, state: u64, t: nat, d: nat)
    requires
        n <= u32::MAX,
        t < d < n,
    ensures
        shuffled(n, state, d)[n - 1 - t] == shuffled(n, state, t + 1)[n - 1 - t],
    decreases d,
{
    if d > t + 1 {
        let k = (d - 1) as nat;
        lemma_shuffled_kept(n, state, t, k);
        lemma_shuffle_step(n, state, k, drawn_fraction(state_after(state, k)));
        lemma_shuffled_permutation(n, state, k);
    }
}

/// The position that step `t` of a shuffle of `n` elements draws.
pub open spec fn position_drawn(n: nat, state: u64, t: nat) -> nat {
    scaled_fraction(drawn_fraction(state_after(state, t)), (n - t) as nat)
}

/// Shuffles of the same positions are the same.
proof fn lemma_same_positions(n: nat, a: u64, b: u64, t: nat)
    requires
        t <= n,
        forall|s: nat| s < t ==> #[trigger] position_drawn(n, a, s) == position_drawn(n, b, s),
    ensures
        shuffled(n, a, t) == shuffled(n, b, t),
    decreases t,
{
    if t > 0 {
        let s = (t - 1) as nat;
        lemma_same_positions(n, a, b, s);
        assert(position_drawn(n, a, s) == position_drawn(n, b, s));
    }
}

/// Different draws give different shuffles: where two generators first draw
/// different positions, the shuffled numbers differ in the element that the
/// step puts in its place.
pub proof fn law_draws_tell_apart(n: nat, a: u64, b: u64, t: nat)
    requires
        n <= u32::MAX,
        t + 1 < n,
        forall|s: nat| s < t ==> #[trigger] position_drawn(n, a, s) == position_drawn(n, b, s),
        position_drawn(n, a, t) != position_drawn(n, b, t),
    ensures
        drawn_position(
            drawn_fraction(state_after(a, t)) as int,
            n - t,
            position_drawn(n, a, t) as int,
        ),
        shuffled(n, a, shuffle_draws(n))[n - 1 - t] != shuffled(n, b, shuffle_draws(n))[n - 1 - t],
{
    lemma_same_positions(n, a, b, t);
    lemma_shuffle_step(n, a, t, drawn_fraction(state_after(a, t)));
    lemma_shuffle_step(n, b, t, drawn_fraction(state_after(b, t)));
    lemma_shuffled_kept(n, a, t, shuffle_draws(n));
    lemma_shuffled_kept(n, b, t, shuffle_draws(n));
    lemma_shuffled_permutation(n, a, t);
    let p = shuffled(n, a, t);
    let (i, j) = (position_drawn(n, a, t) as int, position_drawn(n, b, t) as int);
    if i < j {
        assert(p[i] != p[j]);
    } else {
        assert(p[j] != p[i]);
    }
}

/// The inverses of the two multipliers of the output mix, modulo `2^64`.
pub const UNMIX_1: u64 = 0x96de_1b17_3f11_9089;

/// The inverse of the second multiplier.
pub const UNMIX_2: u64 = 0x3196_42b2_d24d_8ec3;

/// The state that a scrambled form belongs to: shifts and products undone, last
/// to first.
pub open spec fn unmixed(d: u64) -> u64 {
    let b = (d ^ (d >> 31) ^ (d >> 62)).wrapping_mul(UNMIX_2);
    let a = (b ^ (b >> 27) ^ (b >> 54)).wrapping_mul(UNMIX_1);
    a ^ (a >> 30) ^ (a >> 60)
}

/// Multiplying by a number and by its inverse.
proof fn lemma_times_undone(z: u64, f: u64, inverse: u64, k: int)
    requires
        f * inverse == k * 0x1_0000_0000_0000_0000 + 1,
    ensures
        z.wrapping_mul(f).wrapping_mul(inverse) == z,
{
    let big = 0x1_0000_0000_0000_0000int;
    let p = z * f;
    assert(z.wrapping_mul(f) as int == p % big);
    lemma_mul_mod_noop_left(p, inverse as int, big);
    assert(p * inverse == big * (z * k) + z) by (nonlinear_arith)
        requires
            p == z * f,
            f * inverse == k * big + 1,
    ;
    lemma_mod_multiples_vanish(z * k, z as int, big);
}

/// Scrambling a state can be undone.
pub proof fn law_mixing_undone(z: u64)
    ensures
        unmixed(mixed(z)) == z,
{
    let p = z ^ (z >> 30);
    let r = p.wrapping_mul(MIX_1);
    let t = r ^ (r >> 27);
    let v = t.wrapping_mul(MIX_2);
    let d = v ^ (v >> 31);
    assert(d ^ (d >> 31) ^ (d >> 62) == v) by (bit_vector)
        requires
            d == v ^ (v >> 31),
    ;
    lemma_times_undone(t, MIX_2, UNMIX_2, 0x1cd3_36ed_a85f_1453);
    assert(t ^ (t >> 27) ^ (t >> 54) == r) by (bit_vector)
        requires
            t == r ^ (r >> 27),
    ;
    lemma_times_undone(p, MIX_1, UNMIX_1, 0x70c3_bca7_8f27_f46c);
    assert(p ^ (p >> 30) ^ (p >> 60) == z) by (bit_vector)
        requires
            p == z ^ (z >> 30),
    ;
}

/// Different states give different draws.
pub proof fn law_draws_differ(a: u64, b: u64)
    requires
        a != b,
    ensures
        drawn(a) != drawn(b),
{
    law_mixing_undone(next_state(a));
    law_mixing_undone(next_state(b));
}

} // verus!
