//! Properties of what is computed, with rounding: bounds on codes, the inputs
//! that give the zero code, and the steps that are undone bit for bit.

#[allow(unused_imports)]
use crate::arith::Arithmetic;
#[allow(unused_imports)]
use crate::binary32::{
    body_magnitude, compose, lemma_body_order, Binary32, HALF_BITS, INFINITY_BITS,
    NEG_INFINITY_BITS, ONE_BITS,
};
#[allow(unused_imports)]
use crate::code::{digits, zero_code, Bits};
#[allow(unused_imports)]
use crate::encoding::{
    cut, degenerate, digits_of, encoded, greatest, least, level, offset_of, step_of,
};
#[allow(unused_imports)]
use crate::hadamard::{
    blockwise, hadamard, lemma_blockwise_len, lemma_hadamard_len, normalized, scaled,
};
use crate::laws::{finite_signs, law_rotated_dimension};
use crate::pairing::{Swap, MINUS_ONE_BITS};
#[allow(unused_imports)]
use crate::precision::{
    law_rounding_error, law_rounding_exact, law_rounding_monotone, lemma_body_split,
    lemma_nearest_error, lemma_nearest_whole,
};
#[allow(unused_imports)]
use crate::recovery::law_pack_then_unpack;
#[allow(unused_imports)]
use crate::rotation::{
    padded, swap_pass, swap_step, unswap_pass, unswap_step, RotationModel,
};
#[allow(unused_imports)]
use crate::rounding::{lemma_body_scaled, round_body, INFINITY_BODY};
use vstd::arithmetic::power2::{
    lemma2_to64, lemma_pow2_adds, lemma_pow2_pos, lemma_pow2_unfold, pow2,
};
use vstd::prelude::*;

verus! {

/// Finite numbers are ordered like their values.
pub proof fn law_key_order(a: Binary32, b: Binary32)
    requires
        a.finite(),
        b.finite(),
    ensures
        a.key() < b.key() <==> a.units() < b.units(),
        a.key() == b.key() <==> a.units() == b.units(),
{
    let (p, q) = (a.body(), b.body());
    if p < q {
        lemma_body_order(p, q);
    }
    if q < p {
        lemma_body_order(q, p);
    }
    if p > 0 {
        lemma_body_order(0, p);
    }
    if q > 0 {
        lemma_body_order(0, q);
    }
}

/// The least element is a number, and not above any other number.
pub proof fn lemma_least(x: Seq<Binary32>, n: nat)
    requires
        n <= x.len(),
    ensures
        !least(x, n).nan(),
        n > 0 && (forall|k: int| 0 <= k < n ==> (#[trigger] x[k]).finite()) ==> least(
            x,
            n,
        ).finite(),
        forall|k: int| 0 <= k < n && !(#[trigger] x[k]).nan() ==> least(x, n).at_most(x[k]),
    decreases n,
{
    if n > 0 {
        lemma_least(x, (n - 1) as nat);
        if n == 1 {
            assert(least(x, 0) == Binary32 { bits: INFINITY_BITS });
        }
    }
}

/// The greatest element is a number, and not below any other number.
pub proof fn lemma_greatest(x: Seq<Binary32>, n: nat)
    requires
        n <= x.len(),
    ensures
        !greatest(x, n).nan(),
        n > 0 && (forall|k: int| 0 <= k < n ==> (#[trigger] x[k]).finite()) ==> greatest(
            x,
            n,
        ).finite(),
        forall|k: int| 0 <= k < n && !(#[trigger] x[k]).nan() ==> x[k].at_most(greatest(x, n)),
    decreases n,
{
    if n > 0 {
        lemma_greatest(x, (n - 1) as nat);
        if n == 1 {
            assert(greatest(x, 0) == Binary32 { bits: NEG_INFINITY_BITS });
        }
    }
}

/// The largest codes as numbers, and one half.
pub proof fn lemma_constants()
    ensures
        Binary32::of_nat(15) == (Binary32 { bits: 0x4170_0000 }),
        Binary32::of_nat(255) == (Binary32 { bits: 0x437f_0000 }),
        body_magnitude(0x4170_0000) == 15 * pow2(149),
        body_magnitude(0x437f_0000) == 255 * pow2(149),
        2 * body_magnitude(HALF_BITS as nat) == pow2(149),
        Binary32::half_pow(1) == (Binary32 { bits: HALF_BITS }),
{
    lemma2_to64();
    lemma_pow2_adds(20, 129);
    lemma_pow2_adds(16, 133);
    lemma_pow2_adds(23, 125);
    lemma_pow2_unfold(149);
    assert(body_magnitude(0x4170_0000) == 0xf0_0000 * pow2(129));
    assert(body_magnitude(0x437f_0000) == 0xff_0000 * pow2(133));
    assert(body_magnitude(HALF_BITS as nat) == 0x80_0000 * pow2(125));
    law_rounding_exact(0x4170_0000);
    law_rounding_exact(0x437f_0000);
}

/// Rounding nothing gives nothing.
pub proof fn lemma_round_nothing(den: nat)
    requires
        den > 0,
    ensures
        round_body(0, den) == 0,
{
    lemma_nearest_whole(0, den);
    assert(0 * den == 0);
}

/// The difference of a finite number and a lesser or equal one.
pub proof fn lemma_difference(v: Binary32, lower: Binary32)
    requires
        v.finite(),
        lower.finite(),
        lower.key() <= v.key(),
    ensures
        v.units() >= lower.units(),
        v.minus(lower).body() == round_body((v.units() - lower.units()) as nat, 1),
        v.minus(lower).negative() ==> v.minus(lower).is_zero(),
        !v.minus(lower).nan(),
{
    law_key_order(v, lower);
    lemma_round_nothing(1);
    let n = lower.negated();
    assert(n.body() == lower.body());
    assert(n.units() == -lower.units());
}

/// A number that is zero, or positive with a body of at most `limit`.
spec fn capped(x: Binary32, limit: nat) -> bool {
    !x.nan() && x.body() <= limit && (x.negative() ==> x.is_zero())
}

/// Adding one half and cutting off the fraction of a number that is at most
/// `limit`, whose sum with one half is the number `sum`.
proof fn lemma_rounded_code(x: Binary32, limit: nat, sum: nat, code: nat)
    requires
        capped(x, limit),
        limit < INFINITY_BODY,
        sum < INFINITY_BODY,
        body_magnitude(sum) == body_magnitude(limit) + body_magnitude(HALF_BITS as nat),
        body_magnitude(sum) < (code + 1) * pow2(149),
        code <= 255,
    ensures
        x.plus(Binary32::half_pow(1)).saturated() <= code,
{
    lemma_constants();
    let half = Binary32 { bits: HALF_BITS };
    let h = body_magnitude(HALF_BITS as nat);
    lemma_pow2_pos(149);
    if x.body() < limit {
        lemma_body_order(x.body(), limit);
    }
    let total = x.magnitude() + h;
    assert(half.units() == h);
    assert(x.units() == x.magnitude());
    law_rounding_monotone(total, 1, body_magnitude(sum), 1);
    law_rounding_exact(sum);
    let t = x.plus(half);
    assert(t == compose(false, round_body(total, 1)));
    if t.body() < sum {
        lemma_body_order(t.body(), sum);
    }
    let (m, u) = (t.magnitude(), pow2(149));
    assert(m / u <= code) by (nonlinear_arith)
        requires
            m < (code + 1) * u,
            u > 0,
    ;
}

/// The quotient of a difference by the step is at most `limit`, where the range
/// is at most `limit` times the step.
proof fn lemma_quotient_capped(d: Binary32, range: nat, step: Binary32, limit: nat)
    requires
        d.finite(),
        d.negative() ==> d.is_zero(),
        d.magnitude() <= range,
        step.finite(),
        !step.negative(),
        !step.is_zero(),
        limit < INFINITY_BODY,
        range * pow2(149) <= body_magnitude(limit) * step.magnitude(),
    ensures
        capped(d.over(step), limit),
{
    lemma_body_order(0, step.body());
    let (m, s, u) = (d.magnitude(), step.magnitude(), pow2(149));
    assert(m * u <= range * u) by (nonlinear_arith)
        requires
            m <= range,
    ;
    assert((m * u) * 1 == m * u);
    law_rounding_monotone(m * u, s, body_magnitude(limit), 1);
    law_rounding_exact(limit);
    if d.is_zero() {
        assert(0 * u == 0);
        lemma_round_nothing(s);
    }
}

/// The step of a range of 15 steps: the range is at most the step times a bit
/// over 15 where the step is a normal number, and at most 22 steps in any case.
proof fn lemma_step_of_four(range: Binary32)
    requires
        range.finite(),
        !range.over(Binary32::of_nat(15)).at_most(Binary32 { bits: 0 }),
        range.negative() ==> range.is_zero(),
    ensures
        ({
            let step = range.over(Binary32::of_nat(15));
            &&& step.finite()
            &&& !step.negative()
            &&& !step.is_zero()
            &&& range.magnitude() <= 22 * step.magnitude()
            &&& step.body() >= 0x80_0000 ==> 0x100_0000 * range.magnitude() <= 0xf00_000f
                * step.magnitude()
        }),
{
    lemma_constants();
    let top = Binary32::of_nat(15);
    let step = range.over(top);
    let (m, u) = (range.magnitude(), pow2(149));
    lemma_pow2_pos(149);
    if range.is_zero() {
        assert(0 * u == 0);
        lemma_round_nothing(15 * u);
    }
    lemma_body_scaled(m, 15, u);
    let s = round_body(m, 15);
    law_rounding_monotone(m, 15, m, 1);
    law_rounding_exact(range.body());
    assert(step == compose(false, s));
    assert(s > 0);
    if s >= 0x80_0000 {
        law_rounding_error(m, 15);
        let w = body_magnitude(s);
        assert(0x100_0000 * m <= 0x100_0001 * w * 15);
        assert(0x100_0000 * m <= 0xf00_000f * w);
        assert(m <= 22 * w);
    } else {
        let (q, k) = lemma_body_split(m, 15);
        assert(q == 0);
        lemma2_to64();
        assert(15 * pow2(0) == 15);
        lemma_nearest_error(m, 15);
        assert(m <= 22 * s);
    }
}

/// The magnitudes that 4-bit codes are compared with.
proof fn lemma_code_limits()
    ensures
        body_magnitude(0x4170_0001) == 0xf0_0001 * pow2(129),
        0x10_0000 * pow2(129) == pow2(149),
        body_magnitude(0x41b0_0000) == 22 * pow2(149),
        body_magnitude(0x4178_0001) == body_magnitude(0x4170_0001) + body_magnitude(
            HALF_BITS as nat,
        ),
        body_magnitude(0x41b4_0000) == body_magnitude(0x41b0_0000) + body_magnitude(
            HALF_BITS as nat,
        ),
        body_magnitude(0x4178_0001) < 16 * pow2(149),
        body_magnitude(0x41b4_0000) < 23 * pow2(149),
{
    lemma2_to64();
    lemma_constants();
    lemma_pow2_pos(129);
    lemma_pow2_adds(20, 129);
    lemma_pow2_adds(1, 129);
    assert(body_magnitude(0x4178_0001) == 0xf8_0001 * pow2(129));
    assert(body_magnitude(0x41b0_0000) == 0xb0_0000 * pow2(130));
    assert(body_magnitude(0x41b4_0000) == 0xb4_0000 * pow2(130));
}

/// The 4-bit code of a finite coordinate within a finite range.
#[verifier::rlimit(40)]
proof fn lemma_four_bit_code(v: Binary32, lower: Binary32, upper: Binary32, step: Binary32)
    requires
        v.finite(),
        lower.finite(),
        upper.finite(),
        lower.at_most(v),
        v.at_most(upper),
        step == upper.minus(lower).over(Binary32::of_nat(15)),
        !step.at_most(Binary32 { bits: 0 }),
    ensures
        level(v, lower, step) <= 22,
        step.body() >= 0x80_0000 ==> level(v, lower, step) <= 15,
{
    reveal(level);
    lemma_constants();
    lemma_code_limits();
    lemma_pow2_pos(149);
    let (d, range) = (v.minus(lower), upper.minus(lower));
    lemma_difference(v, lower);
    lemma_difference(upper, lower);
    law_key_order(v, upper);
    law_rounding_monotone(
        (v.units() - lower.units()) as nat,
        1,
        (upper.units() - lower.units()) as nat,
        1,
    );
    let x = d.over(step);
    if range.infinite() {
        assert(step == compose(false, INFINITY_BODY as nat));
        if d.finite() {
            assert(capped(x, 0x4170_0001));
            lemma_rounded_code(x, 0x4170_0001, 0x4178_0001, 15);
        }
    } else {
        lemma_step_of_four(range);
        if d.body() < range.body() {
            lemma_body_order(d.body(), range.body());
        }
        let (r, s, u, w) = (range.magnitude(), step.magnitude(), pow2(149), pow2(129));
        assert(r * u <= (22 * u) * s) by (nonlinear_arith)
            requires
                r <= 22 * s,
        ;
        lemma_quotient_capped(d, r, step, 0x41b0_0000);
        lemma_rounded_code(x, 0x41b0_0000, 0x41b4_0000, 22);
        if step.body() >= 0x80_0000 {
            assert(r * u <= (0xf0_0001 * w) * s) by (nonlinear_arith)
                requires
                    0x100_0000 * r <= 0xf00_000f * s,
                    0x10_0000 * w == u,
                    w >= 0,
                    s >= 0,
            ;
            lemma_quotient_capped(d, r, step, 0x4170_0001);
            lemma_rounded_code(x, 0x4170_0001, 0x4178_0001, 15);
        }
    }
}

/// The 4-bit code of a coordinate within a range that is not finite.
#[verifier::rlimit(40)]
proof fn lemma_infinite_range(v: Binary32, lower: Binary32, upper: Binary32, step: Binary32)
    requires
        lower.at_most(v),
        v.at_most(upper),
        !lower.finite() || !upper.finite(),
        step == upper.minus(lower).over(Binary32::of_nat(15)),
    ensures
        level(v, lower, step) == 0,
{
    reveal(level);
    lemma_constants();
    lemma_pow2_pos(149);
    let (d, range) = (v.minus(lower), upper.minus(lower));
    assert(lower.negated().body() == lower.body());
    let x = d.over(step);
    let half = Binary32 { bits: HALF_BITS };
    let h = body_magnitude(HALF_BITS as nat);
    if !x.nan() {
        lemma_difference(v, lower);
        assert(range == compose(false, INFINITY_BODY as nat));
        assert(step == compose(false, INFINITY_BODY as nat));
        assert(x.is_zero());
        assert(x.units() == 0);
        law_rounding_exact(HALF_BITS as nat);
        assert(x.plus(half) == half);
        assert(h / pow2(149) == 0) by (nonlinear_arith)
            requires
                0 <= h < pow2(149),
        ;
    }
}

/// The level of a coordinate of a rotated vector that is not degenerate is a
/// 4-bit code, at most 15, where the step is a normal number: capping changes
/// it only below the normal numbers, and there from at most 22.
pub proof fn law_four_bit_levels(rx: Seq<Binary32>, k: int)
    requires
        0 <= k < rx.len(),
        !step_of(rx, Bits::Four).at_most(Binary32 { bits: 0 }),
    ensures
        level(rx[k], offset_of(rx), step_of(rx, Bits::Four)) <= 22,
        0x80_0000 <= step_of(rx, Bits::Four).body() ==> level(
            rx[k],
            offset_of(rx),
            step_of(rx, Bits::Four),
        ) <= 15,
{
    let (v, lower, upper) = (rx[k], offset_of(rx), greatest(rx, rx.len()));
    let step = step_of(rx, Bits::Four);
    reveal(step_of);
    lemma_least(rx, rx.len());
    lemma_greatest(rx, rx.len());
    if v.nan() {
        reveal(level);
    } else if lower.finite() && upper.finite() {
        lemma_four_bit_code(v, lower, upper, step);
    } else {
        lemma_infinite_range(v, lower, upper, step);
    }
}

/// The code of a vector holds the code of each rotated coordinate in its place,
/// and none is above the largest code.
pub proof fn law_codes_kept(m: RotationModel<Binary32>, x: Seq<Binary32>, bits: Bits)
    requires
        m.well_formed(),
        m.applies_to(m.dim),
        !degenerate(m, x, bits),
    ensures
        ({
            let rx = m.rotated(cut(x, m.dim));
            let d = digits_of(rx, offset_of(rx), step_of(rx, bits), bits);
            &&& digits(bits, encoded(m, x, bits).codes) == Seq::new(d.len(), |k: int| d[k] as nat)
            &&& forall|k: int| 0 <= k < d.len() ==> #[trigger] d[k] <= bits.top()
        }),
{
    let rx = m.rotated(cut(x, m.dim));
    let d = digits_of(rx, offset_of(rx), step_of(rx, bits), bits);
    law_rotated_dimension(m, cut(x, m.dim));
    law_pack_then_unpack(d, bits);
}

/// All numbers are zero.
pub open spec fn all_zero(x: Seq<Binary32>) -> bool {
    forall|k: int| 0 <= k < x.len() ==> (#[trigger] x[k]).is_zero()
}

/// Sums, differences and multiples of zeros are zeros.
pub proof fn lemma_zero_arithmetic(a: Binary32, b: Binary32, f: Binary32)
    requires
        a.is_zero(),
        b.is_zero(),
        f.finite(),
    ensures
        a.plus(b).is_zero(),
        a.minus(b).is_zero(),
        f.times(a).is_zero(),
        !f.is_zero() ==> a.over(f).is_zero(),
{
    lemma_pow2_pos(149);
    lemma_round_nothing(pow2(149));
    assert(b.negated().is_zero());
    assert(f.magnitude() * 0 == 0);
    if !f.is_zero() {
        lemma_body_order(0, f.body());
        lemma_round_nothing(f.magnitude());
        assert(0 * pow2(149) == 0);
    }
}

/// The transform of zeros.
proof fn lemma_hadamard_zero(x: Seq<Binary32>, levels: nat)
    requires
        x.len() == pow2(levels),
        all_zero(x),
    ensures
        all_zero(hadamard(x)),
    decreases levels,
{
    lemma2_to64();
    if levels > 0 {
        let l = (levels - 1) as nat;
        lemma_pow2_unfold(levels);
        lemma_pow2_pos(l);
        let half = (x.len() / 2) as int;
        let (a, b) = (x.subrange(0, half), x.subrange(half, x.len() as int));
        lemma_hadamard_len(a, l);
        lemma_hadamard_len(b, l);
        lemma_hadamard_zero(a, l);
        lemma_hadamard_zero(b, l);
        let (p, q) = (hadamard(a), hadamard(b));
        let h = hadamard(x);
        assert forall|k: int| 0 <= k < h.len() implies (#[trigger] h[k]).is_zero() by {
            let t = if k < half {
                k
            } else {
                k - half
            };
            lemma_zero_arithmetic(p[t], q[t], p[t]);
        }
    }
}

/// The normalized transform of zeros.
proof fn lemma_normalized_zero(x: Seq<Binary32>, levels: nat, k: nat)
    requires
        x.len() == pow2(levels),
        all_zero(x),
        k <= 127,
    ensures
        normalized(x, k).len() == x.len(),
        all_zero(normalized(x, k)),
{
    reveal(normalized);
    let f = Binary32::half_pow(k);
    let y = scaled(x, f);
    assert(f.finite());
    assert forall|i: int| 0 <= i < y.len() implies (#[trigger] y[i]).is_zero() by {
        lemma_zero_arithmetic(x[i], x[i], f);
    }
    lemma_hadamard_len(y, levels);
    lemma_hadamard_zero(y, levels);
}

/// The block transform of zeros.
proof fn lemma_blockwise_zero(x: Seq<Binary32>)
    requires
        all_zero(x),
    ensures
        all_zero(blockwise(x)),
    decreases x.len(),
{
    lemma2_to64();
    if x.len() >= 256 {
        lemma_normalized_zero(x.subrange(0, 256), 8, 4);
        lemma_blockwise_zero(x.subrange(256, x.len() as int));
    } else if x.len() >= 64 {
        lemma_normalized_zero(x.subrange(0, 64), 6, 3);
        lemma_blockwise_zero(x.subrange(64, x.len() as int));
    }
}

/// The swaps of zeros.
proof fn lemma_swap_pass_zero(x: Seq<Binary32>, swaps: Seq<Swap>, signs: Seq<Binary32>)
    requires
        all_zero(x),
        forall|k: int|
            0 <= k < swaps.len() ==> {
                let s = #[trigger] swaps[k];
                &&& s.i < x.len() && signs[s.i as int].finite()
                &&& s.j < x.len() && signs[s.j as int].finite()
            },
    ensures
        swap_pass(x, swaps, signs).len() == x.len(),
        all_zero(swap_pass(x, swaps, signs)),
    decreases swaps.len(),
{
    if swaps.len() > 0 {
        let (rest, s) = (swaps.drop_last(), swaps.last());
        lemma_swap_pass_zero(x, rest, signs);
        let p = swap_pass(x, rest, signs);
        assert(swaps[swaps.len() - 1] == s);
        let (i, j) = (s.i as int, s.j as int);
        lemma_zero_arithmetic(p[j], p[j], signs[i]);
        lemma_zero_arithmetic(p[i], p[i], signs[j]);
    }
}

/// The rounds of zeros.
proof fn lemma_forward_zero(m: RotationModel<Binary32>, x: Seq<Binary32>, rounds: nat)
    requires
        m.applies_to(x.len()),
        finite_signs(m),
        rounds <= m.rounds,
        all_zero(x),
    ensures
        m.forward(x, rounds).len() == x.len(),
        all_zero(m.forward(x, rounds)),
    decreases rounds,
{
    if rounds > 0 {
        let r = rounds - 1;
        lemma_forward_zero(m, x, r as nat);
        let (swaps, signs) = (m.swaps[r], m.signs[r]);
        assert forall|k: int| 0 <= k < swaps.len() implies ({
            let s = #[trigger] swaps[k];
            &&& s.i < x.len() && signs[s.i as int].finite()
            &&& s.j < x.len() && signs[s.j as int].finite()
        }) by {
            let s = m.swaps[r][k];
            assert(m.signs[r][s.i as int].finite());
            assert(m.signs[r][s.j as int].finite());
        }
        let f = m.forward(x, r as nat);
        lemma_swap_pass_zero(f, swaps, signs);
        lemma_blockwise_zero(swap_pass(f, swaps, signs));
        lemma_blockwise_len(swap_pass(f, swaps, signs));
    }
}

/// A vector whose rotated coordinates are finite and all equal has the zero
/// code.
#[verifier::rlimit(40)]
pub proof fn law_no_spread(m: RotationModel<Binary32>, x: Seq<Binary32>, bits: Bits)
    requires
        m.applies_to(m.dim),
        forall|k: int| 0 <= k < m.dim ==> (#[trigger] m.rotated(cut(x, m.dim))[k]).finite(),
        forall|k: int|
            0 <= k < m.dim ==> (#[trigger] m.rotated(cut(x, m.dim))[k]).key() == m.rotated(
                cut(x, m.dim),
            )[0].key(),
    ensures
        encoded(m, x, bits) == zero_code(m.dim, bits),
{
    let rx = m.rotated(cut(x, m.dim));
    law_rotated_dimension(m, cut(x, m.dim));
    if m.dim > 0 {
        lemma_same_range(rx, rx.len());
    }
    lemma_no_step(rx, bits);
}

/// The step of a vector whose least and greatest elements are equal, or that
/// has no elements.
proof fn lemma_no_step(rx: Seq<Binary32>, bits: Bits)
    requires
        rx.len() > 0 ==> {
            let (a, b) = (greatest(rx, rx.len()), least(rx, rx.len()));
            a.finite() && b.finite() && a.key() == b.key()
        },
    ensures
        step_of(rx, bits).at_most(Binary32 { bits: 0 }),
{
    reveal(step_of);
    lemma_constants();
    let top = Binary32::of_nat(bits.top());
    if rx.len() > 0 {
        let (a, b) = (greatest(rx, rx.len()), least(rx, rx.len()));
        law_key_order(a, b);
        lemma_difference(a, b);
        lemma_round_nothing(1);
        lemma_zero_arithmetic(a.minus(b), a.minus(b), top);
    } else {
        let (lo, hi) = (Binary32 { bits: INFINITY_BITS }, Binary32 { bits: NEG_INFINITY_BITS });
        assert(hi.minus(lo) == hi);
        assert(hi.over(top) == hi);
    }
}

/// The range of equal finite numbers.
proof fn lemma_same_range(x: Seq<Binary32>, n: nat)
    requires
        0 < n <= x.len(),
        forall|k: int| 0 <= k < x.len() ==> (#[trigger] x[k]).finite(),
        forall|k: int| 0 <= k < x.len() ==> (#[trigger] x[k]).key() == x[0].key(),
    ensures
        least(x, n).finite(),
        greatest(x, n).finite(),
        least(x, n).key() == x[0].key(),
        greatest(x, n).key() == x[0].key(),
    decreases n,
{
    if n > 1 {
        lemma_same_range(x, (n - 1) as nat);
    } else {
        assert(least(x, 0) == Binary32 { bits: INFINITY_BITS });
        assert(greatest(x, 0) == Binary32 { bits: NEG_INFINITY_BITS });
    }
}

/// An all-zero vector, of any length, has the zero code.
pub proof fn law_zero_vector(m: RotationModel<Binary32>, x: Seq<Binary32>, bits: Bits)
    requires
        m.applies_to(m.dim),
        finite_signs(m),
        all_zero(x),
    ensures
        encoded(m, x, bits) == zero_code(m.dim, bits),
{
    let p = padded(cut(x, m.dim), m.dim);
    lemma_round_nothing(1);
    assert(0 * pow2(149) == 0);
    assert forall|k: int| 0 <= k < p.len() implies (#[trigger] p[k]).is_zero() by {
        if k < x.len() {
            assert(x[k].is_zero());
        }
    }
    lemma_forward_zero(m, p, m.rounds);
    let rx = m.rotated(cut(x, m.dim));
    assert forall|k: int| 0 <= k < m.dim implies (#[trigger] rx[k]).finite() && rx[k].key()
        == rx[0].key() by {
        assert(rx[k].is_zero());
        assert(rx[0].is_zero());
    }
    law_no_spread(m, x, bits);
}

/// Only the first coordinates of an input, as many as the output dimension,
/// are used.
pub proof fn law_encode_cuts(m: RotationModel<Binary32>, x: Seq<Binary32>, bits: Bits)
    requires
        m.applies_to(m.dim),
    ensures
        encoded(m, cut(x, m.dim), bits) == encoded(m, x, bits),
{
    assert(cut(cut(x, m.dim), m.dim) == cut(x, m.dim));
    if m.dim == 0 {
        law_no_spread(m, x, bits);
    }
}

/// One or minus one.
pub open spec fn is_sign(s: Binary32) -> bool {
    s.bits == ONE_BITS || s.bits == MINUS_ONE_BITS
}

/// Multiplying by a sign is exact, and doing it twice gives the number back.
pub proof fn lemma_sign_exact(s: Binary32, v: Binary32)
    requires
        is_sign(s),
        !v.nan(),
    ensures
        s.times(v) == if s.negative() {
            v.negated()
        } else {
            v
        },
        !s.times(v).nan(),
        s.times(s.times(v)) == v,
{
    lemma2_to64();
    lemma_pow2_adds(23, 126);
    lemma_pow2_pos(149);
    let u = pow2(149);
    assert(s.body() == 0x3f80_0000);
    assert(body_magnitude(0x3f80_0000) == 0x80_0000 * pow2(126));
    let n = v.negated();
    assert(n.body() == v.body());
    assert(n.negated() == v);
    if v.finite() {
        let m = v.magnitude();
        lemma_body_scaled(m, 1, u);
        assert(u * m == m * u) by (nonlinear_arith);
        assert(1 * u == u);
        law_rounding_exact(v.body());
    }
}

/// A swap step is undone bit for bit.
proof fn lemma_swap_step_exact(x: Seq<Binary32>, s: Swap, signs: Seq<Binary32>)
    requires
        s.i < x.len(),
        s.j < x.len(),
        is_sign(signs[s.i as int]),
        is_sign(signs[s.j as int]),
        forall|k: int| 0 <= k < x.len() ==> !(#[trigger] x[k]).nan(),
    ensures
        unswap_step(swap_step(x, s, signs), s, signs) == x,
        forall|k: int| 0 <= k < x.len() ==> !(#[trigger] swap_step(x, s, signs)[k]).nan(),
{
    let (i, j) = (s.i as int, s.j as int);
    lemma_sign_exact(signs[i], x[i]);
    lemma_sign_exact(signs[i], x[j]);
    lemma_sign_exact(signs[j], x[i]);
    lemma_sign_exact(signs[j], x[j]);
    assert(unswap_step(swap_step(x, s, signs), s, signs) =~= x);
}

/// The sign flips and swaps of a round, with signs that are one or minus one,
/// are undone bit for bit on any vector without NaN.
pub proof fn law_swaps_undone(x: Seq<Binary32>, swaps: Seq<Swap>, signs: Seq<Binary32>)
    requires
        forall|k: int| 0 <= k < x.len() ==> !(#[trigger] x[k]).nan(),
        forall|k: int|
            0 <= k < swaps.len() ==> {
                let s = #[trigger] swaps[k];
                &&& s.i < x.len() && is_sign(signs[s.i as int])
                &&& s.j < x.len() && is_sign(signs[s.j as int])
            },
    ensures
        unswap_pass(swap_pass(x, swaps, signs), swaps, signs) == x,
        swap_pass(x, swaps, signs).len() == x.len(),
        forall|k: int| 0 <= k < x.len() ==> !(#[trigger] swap_pass(x, swaps, signs)[k]).nan(),
    decreases swaps.len(),
{
    if swaps.len() > 0 {
        let (rest, s) = (swaps.drop_last(), swaps.last());
        law_swaps_undone(x, rest, signs);
        assert(swaps[swaps.len() - 1] == s);
        lemma_swap_step_exact(swap_pass(x, rest, signs), s, signs);
    }
}

} // verus!
