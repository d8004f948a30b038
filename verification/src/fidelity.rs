//! How far a computed code is from the coordinate it stands for, with all
//! rounding taken into account.

#[allow(unused_imports)]
use crate::algebra::{
    lemma_associate, lemma_cancel, lemma_commute, lemma_constant_factors, lemma_distribute,
    lemma_factor_order, lemma_multiple, lemma_quotient_product, lemma_real_product, product,
    quotient,
};
#[allow(unused_imports)]
use crate::arith::Arithmetic;
#[allow(unused_imports)]
use crate::binary32::{body_magnitude, compose, lemma_body_order, Binary32, HALF_BITS};
#[allow(unused_imports)]
use crate::code::{digits, Bits};
#[allow(unused_imports)]
use crate::encoding::{
    cut, degenerate, digit, digits_of, encoded, greatest, level, offset_of, step_of,
};
#[allow(unused_imports)]
use crate::laws::{law_code_size, law_rotated_dimension};
#[allow(unused_imports)]
use crate::precision::{
    gap, law_rounding_error, law_rounding_exact, law_rounding_monotone, law_rounding_relative,
    lemma_body_split, lemma_nearest_whole, lemma_split_magnitude,
};
#[allow(unused_imports)]
use crate::rotation::RotationModel;
#[allow(unused_imports)]
use crate::rounded::{
    law_codes_kept, law_key_order, lemma_constants, lemma_difference, lemma_greatest, lemma_least,
    lemma_round_nothing,
};
#[allow(unused_imports)]
use crate::rounding::{lemma_body_scaled, round_body, INFINITY_BODY};
use vstd::arithmetic::power2::{
    lemma2_to64, lemma2_to64_rest, lemma_pow2_adds, lemma_pow2_pos, lemma_pow2_strictly_increases,
    pow2,
};
use vstd::prelude::*;

verus! {

/// A difference times a factor.
proof fn lemma_difference_times(x: real, y: real, s: real)
    ensures
        product(x - y, s) == product(x, s) - product(y, s),
{
    lemma_commute(x - y, s);
    lemma_commute(x, s);
    lemma_commute(y, s);
    lemma_distribute(s, x, y);
}

/// A bound on a difference, divided by a common factor.
proof fn lemma_divided(x: real, y: real, rest: real, s: real)
    requires
        s > 0real,
        16777216real * (product(x, s) - product(y, s)) <= product(rest, s),
    ensures
        16777216real * (x - y) <= rest,
{
    lemma_difference_times(x, y, s);
    lemma_multiple(16777216real, x - y, s);
    lemma_cancel(s, 16777216real * (x - y), rest);
}

/// The steps of computing a code, each off by at most one part in `2^24`, from
/// the exact quotient `a` to the code `c`.
proof fn lemma_code_steps(a: real, d: real, q: real, t: real, c: real, top: real)
    requires
        0real <= a,
        top <= 255real,
        1000000real * a <= 1000001real * top,
        16777216real * (d - a) <= a,
        16777216real * (a - d) <= a,
        16777216real * (q - d) <= d + 1real / 1024real,
        16777216real * (d - q) <= d + 1real / 1024real,
        16777216real * (t - (q + 1real / 2real)) <= q + 1real / 2real,
        16777216real * ((q + 1real / 2real) - t) <= q + 1real / 2real,
        c <= t < c + 1real,
    ensures
        16777216real * (c - a) <= 8388609real + 3real * top,
        16777216real * (a - c) <= 8388609real + 3real * top,
        c < top + 1real,
{
}

/// The ratio of two natural numbers.
pub open spec fn ratio(n: nat, d: nat) -> real {
    quotient(n as real, d as real)
}

/// A ratio times its denominator.
proof fn lemma_ratio(n: nat, d: nat)
    requires
        d > 0,
    ensures
        product(ratio(n, d), d as real) == n as real,
        ratio(n, d) >= 0real,
{
    lemma_quotient_product(n as real, d as real);
}

/// Two natural numbers that differ by little, divided by a third.
proof fn lemma_close_ratios(n: nat, m: nat, s: nat)
    requires
        s > 0,
        0x100_0000 * gap(n, m) <= n,
    ensures
        16777216real * (ratio(m, s) - ratio(n, s)) <= ratio(n, s),
        16777216real * (ratio(n, s) - ratio(m, s)) <= ratio(n, s),
{
    lemma_ratio(n, s);
    lemma_ratio(m, s);
    let (x, y, w) = (ratio(n, s), ratio(m, s), s as real);
    lemma_divided(y, x, x, w);
    lemma_divided(x, y, x, w);
}

/// The rounded quotient in units of `2^-149`, as a quotient.
proof fn lemma_close_quotient(d: nat, s: nat, q: nat, u: nat)
    requires
        s > 0,
        u >= 0x4_0000_0000,
        0x100_0000 * gap(d * u, q * s) <= d * u + 0x80_0000 * s,
    ensures
        16777216real * (ratio(q, u) - ratio(d, s)) <= ratio(d, s) + 1real / 1024real,
        16777216real * (ratio(d, s) - ratio(q, u)) <= ratio(d, s) + 1real / 1024real,
{
    lemma_ratio(q, u);
    lemma_ratio(d, s);
    let (x, y, a, b) = (ratio(q, u), ratio(d, s), u as real, s as real);
    let w = product(a, b);
    lemma_real_product(d, u);
    lemma_real_product(q, s);
    lemma_associate(x, a, b);
    lemma_commute(a, b);
    lemma_associate(y, b, a);
    assert(product(x, w) == (q * s) as real);
    assert(product(y, w) == (d * u) as real);
    lemma_factor_order(b, 17179869184real, a);
    lemma_multiple(17179869184real, 1real, b);
    lemma_constant_factors(b);
    assert(w >= 17179869184real * b);
    let e = 1real / 1024real;
    let rest = y + e;
    lemma_difference_times(rest, y, w);
    lemma_multiple(e, 1real, w);
    lemma_constant_factors(w);
    assert(product(rest, w) == product(y, w) + w / 1024real);
    lemma_divided(x, y, rest, w);
    lemma_divided(y, x, rest, w);
}

/// A range of `top` steps, computed with rounding, is little more than `top`
/// times the rounded step.
proof fn lemma_range_in_steps(t: nat, r: nat, s: nat, top: nat)
    requires
        s > 0,
        top <= 255,
        0x100_0000 * gap(t, r) <= t,
        0x100_0000 * r <= 0x100_0001 * s * top,
    ensures
        1000000real * ratio(t, s) <= 1000001real * (top as real),
{
    lemma_ratio(t, s);
    lemma_ratio(r, s);
    lemma_close_ratios(t, r, s);
    let (x, w, n) = (ratio(r, s), s as real, top as real);
    assert(0x100_0001 * s * top == 0x100_0001 * (s * top)) by (nonlinear_arith);
    lemma_real_product(s, top);
    lemma_commute(w, n);
    lemma_multiple(16777216real, x, w);
    lemma_multiple(16777217real, n, w);
    lemma_cancel(w, 16777216real * x, 16777217real * n);
}

/// A ratio is at most a whole number where the numerator is at most so many
/// times the denominator, and the other way round.
proof fn lemma_ratio_order(n: nat, m: nat, s: nat)
    requires
        s > 0,
    ensures
        n <= m ==> ratio(n, s) <= ratio(m, s),
        ratio(n, s) <= m as real <==> n <= m * s,
        (m as real) <= ratio(n, s) <==> m * s <= n,
{
    lemma_ratio(n, s);
    lemma_ratio(m, s);
    lemma_real_product(m, s);
    let (x, y, k, w) = (ratio(n, s), ratio(m, s), m as real, s as real);
    if n <= m {
        lemma_cancel(w, x, y);
    }
    if x <= k {
        lemma_factor_order(w, x, k);
    }
    if n <= m * s {
        lemma_cancel(w, x, k);
    }
    if k <= x {
        lemma_factor_order(w, k, x);
    }
    if m * s <= n {
        lemma_cancel(w, k, x);
    }
}

/// The whole computation of a code: `a` the exact difference, `d` the rounded
/// one, `s` the step, `q` the rounded quotient, and `t` that quotient plus one
/// half, rounded, both in units of `1 / u`.
#[verifier::spinoff_prover]
proof fn lemma_code_chain(a: nat, d: nat, s: nat, q: nat, h: nat, t: nat, u: nat, top: nat)
    requires
        s > 0,
        u >= 0x4_0000_0000,
        u == 2 * h,
        top <= 255,
        1000000real * ratio(a, s) <= 1000001real * (top as real),
        0x100_0000 * gap(a, d) <= a,
        0x100_0000 * gap(d * u, q * s) <= d * u + 0x80_0000 * s,
        0x100_0000 * gap(q + h, t) <= q + h,
    ensures
        t / u <= top,
        0x100_0000 * ((t / u) * s) <= 0x100_0000 * a + (0x80_0001 + 3 * top) * s,
        0x100_0000 * a <= 0x100_0000 * ((t / u) * s) + (0x80_0001 + 3 * top) * s,
{
    lemma_close_ratios(a, d, s);
    lemma_close_quotient(d, s, q, u);
    lemma_close_ratios(q + h, t, u);
    lemma_ratio(a, s);
    lemma_ratio(d, s);
    lemma_ratio(q, u);
    lemma_ratio(q + h, u);
    lemma_ratio(t, u);
    let (x, y, w) = (ratio(q, u), ratio(q + h, u), u as real);
    let half = 1real / 2real;
    lemma_difference_times(x + half, x, w);
    lemma_multiple(half, 1real, w);
    lemma_constant_factors(w);
    assert(product(x + half, w) == product(y, w));
    lemma_cancel(w, y, x + half);
    lemma_cancel(w, x + half, y);
    let c = t / u;
    vstd::arithmetic::div_mod::lemma_fundamental_div_mod(t as int, u as int);
    vstd::arithmetic::div_mod::lemma_mod_bound(t as int, u as int);
    assert(u * c == c * u && u * (c + 1) == (c + 1) * u && (c + 1) * u == c * u + u)
        by (nonlinear_arith);
    lemma_ratio_order(t, c, u);
    lemma_ratio_order(t, (c + 1) as nat, u);
    lemma_code_steps(ratio(a, s), ratio(d, s), x, ratio(t, u), c as real, top as real);
    let n: nat = 0x80_0001 + 3 * top;
    let (p, k, v) = (ratio(a, s), c as real, s as real);
    lemma_real_product(c, s);
    lemma_difference_times(k, p, v);
    lemma_multiple(16777216real, k - p, v);
    lemma_multiple(16777216real, p - k, v);
    lemma_difference_times(p, k, v);
    lemma_real_product(n, s);
    lemma_factor_order(v, 16777216real * (k - p), n as real);
    lemma_factor_order(v, 16777216real * (p - k), n as real);
}

/// Limits of quotients and codes.
proof fn lemma_limits()
    ensures
        body_magnitude(0x4380_0000) == 256 * pow2(149),
        body_magnitude(0x4380_8000) == 257 * pow2(149),
        pow2(149) >= 0x4_0000_0000,
{
    lemma2_to64();
    lemma2_to64_rest();
    lemma_pow2_adds(15, 134);
    lemma_pow2_adds(34, 115);
    lemma_pow2_pos(115);
    assert(body_magnitude(0x4380_0000) == 0x80_0000 * pow2(134));
    assert(body_magnitude(0x4380_8000) == 0x80_8000 * pow2(134));
    let (p, q) = (pow2(149), pow2(115));
    assert(p >= 0x4_0000_0000) by (nonlinear_arith)
        requires
            p == 0x4_0000_0000 * q,
            q >= 1,
    ;
}

/// The step as the rounded quotient of the range by the largest code.
proof fn lemma_step(range: Binary32, bits: Bits)
    requires
        range.finite(),
        0x80_0000 <= range.over(Binary32::of_nat(bits.top())).body() < INFINITY_BODY,
    ensures
        0x100_0000 * range.magnitude() <= 0x100_0001 * range.over(
            Binary32::of_nat(bits.top()),
        ).magnitude() * bits.top(),
{
    lemma_constants();
    let (m, u, top) = (range.magnitude(), pow2(149), bits.top());
    lemma_pow2_pos(149);
    lemma_body_scaled(m, top, u);
    law_rounding_error(m, top);
}

/// The quotient of a difference by the step, and its sum with one half, as
/// they are rounded.
#[verifier::spinoff_prover]
#[verifier::rlimit(40)]
proof fn lemma_rounded_steps(d: Binary32, step: Binary32) -> (r: (nat, nat))
    requires
        d.finite(),
        d.negative() ==> d.is_zero(),
        step.finite(),
        !step.negative(),
        !step.is_zero(),
        d.magnitude() <= 256 * step.magnitude(),
    ensures
        ({
            let (q, t) = r;
            let (m, s, u) = (d.magnitude(), step.magnitude(), pow2(149));
            let h = body_magnitude(HALF_BITS as nat);
            &&& 0x100_0000 * gap(m * u, q * s) <= m * u + 0x80_0000 * s
            &&& 0x100_0000 * gap(q + h, t) <= q + h
            &&& t / u <= 255 ==> d.over(step).plus(Binary32::half_pow(1)).saturated() == t / u
        }),
{
    lemma_constants();
    lemma_limits();
    lemma_body_order(0, step.body());
    let (m, s, u) = (d.magnitude(), step.magnitude(), pow2(149));
    let h = body_magnitude(HALF_BITS as nat);
    assert((m * u) * 1 <= (256 * u) * s) by (nonlinear_arith)
        requires
            m <= 256 * s,
    ;
    law_rounding_monotone(m * u, s, body_magnitude(0x4380_0000), 1);
    law_rounding_exact(0x4380_0000);
    let qb = round_body(m * u, s);
    law_rounding_relative(m * u, s);
    let q = body_magnitude(qb);
    if qb < 0x4380_0000 {
        lemma_body_order(qb, 0x4380_0000);
    }
    if d.is_zero() {
        assert(0 * u == 0);
        lemma_round_nothing(s);
    }
    let x = d.over(step);
    assert(x.body() == qb);
    assert(x.negative() ==> x.is_zero());
    let half = Binary32 { bits: HALF_BITS };
    assert(half.units() == h);
    assert(x.units() == q);
    law_rounding_monotone(q + h, 1, body_magnitude(0x4380_8000), 1);
    law_rounding_exact(0x4380_8000);
    law_rounding_relative(q + h, 1);
    let y = x.plus(half);
    assert(y == compose(false, round_body(q + h, 1)));
    (q, y.magnitude())
}

/// A range whose quotient by a positive number is positive is positive.
proof fn lemma_step_positive(range: Binary32, bits: Bits)
    requires
        range.finite(),
        range.negative() ==> range.is_zero(),
        0x80_0000 <= range.over(Binary32::of_nat(bits.top())).body() < INFINITY_BODY,
    ensures
        !range.over(Binary32::of_nat(bits.top())).negative(),
{
    lemma_constants();
    lemma_pow2_pos(149);
    if range.is_zero() {
        let u = pow2(149);
        assert(0 * u == 0);
        lemma_round_nothing(bits.top() * u);
    }
}

/// The computed code of a coordinate within a finite range stands for a value
/// at most half a step, and `3 * top + 1` parts in `2^24` of a step, away from
/// the coordinate, where `top` is the largest code and the step is a normal
/// number. Here the value is exact: the offset plus the step times the code.
/// The code needs no capping.
#[verifier::spinoff_prover]
#[verifier::rlimit(40)]
pub proof fn law_code_error(
    v: Binary32,
    lower: Binary32,
    upper: Binary32,
    step: Binary32,
    bits: Bits,
)
    requires
        v.finite(),
        lower.finite(),
        upper.finite(),
        lower.at_most(v),
        v.at_most(upper),
        upper.minus(lower).finite(),
        step == upper.minus(lower).over(Binary32::of_nat(bits.top())),
        0x80_0000 <= step.body() < INFINITY_BODY,
    ensures
        level(v, lower, step) <= bits.top(),
        digit(v, lower, step, bits) == level(v, lower, step),
        0x100_0000 * (digit(v, lower, step, bits) * step.units() - (v.units() - lower.units())) <= (
        0x80_0001 + 3 * bits.top()) * step.units(),
        0x100_0000 * ((v.units() - lower.units()) - digit(v, lower, step, bits) * step.units()) <= (
        0x80_0001 + 3 * bits.top()) * step.units(),
{
    let (d, range) = (v.minus(lower), upper.minus(lower));
    lemma_difference(v, lower);
    lemma_difference(upper, lower);
    law_key_order(v, upper);
    let a = (v.units() - lower.units()) as nat;
    let t = (upper.units() - lower.units()) as nat;
    law_rounding_monotone(a, 1, t, 1);
    law_rounding_relative(a, 1);
    law_rounding_relative(t, 1);
    lemma_step(range, bits);
    lemma_step_positive(range, bits);
    let s = step.magnitude();
    lemma_body_order(0, step.body());
    lemma_range_in_steps(t, range.magnitude(), s, bits.top());
    lemma_ratio_order(a, t, s);
    let m = d.magnitude();
    lemma_close_ratios(a, m, s);
    lemma_ratio_order(m, 256, s);
    let (q, y) = lemma_rounded_steps(d, step);
    lemma_limits();
    lemma_constants();
    let h = body_magnitude(HALF_BITS as nat);
    lemma_code_chain(a, m, s, q, h, y, pow2(149), bits.top());
    assert(level(v, lower, step) == y / pow2(149)) by {
        reveal(level);
    }
}

/// A rotated vector of finite coordinates, whose range and step are normal
/// numbers too.
pub open spec fn ordinary(rx: Seq<Binary32>, bits: Bits) -> bool {
    &&& forall|k: int| 0 <= k < rx.len() ==> (#[trigger] rx[k]).finite()
    &&& greatest(rx, rx.len()).minus(offset_of(rx)).finite()
    &&& 0x80_0000 <= step_of(rx, bits).body() < INFINITY_BODY
}

/// What is stored of each rotated coordinate of an ordinary vector stands for a
/// value at most half a step, and `3 * top + 1` parts in `2^24` of a step, away
/// from it, where `top` is the largest code.
pub proof fn law_encoded_error(m: RotationModel<Binary32>, x: Seq<Binary32>, bits: Bits, k: int)
    requires
        m.well_formed(),
        m.applies_to(m.dim),
        x.len() > 0,
        ordinary(m.rotated(cut(x, m.dim)), bits),
        0 <= k < m.dim,
    ensures
        ({
            let rx = m.rotated(cut(x, m.dim));
            let c = encoded(m, x, bits);
            let g = digits(bits, c.codes)[k];
            let (a, s) = (rx[k].units() - c.lower.units(), c.step.units());
            &&& g <= bits.top()
            &&& c.lower == offset_of(rx)
            &&& c.step == step_of(rx, bits)
            &&& s > 0
            &&& 0x100_0000 * (g * s - a) <= (0x80_0001 + 3 * bits.top()) * s
            &&& 0x100_0000 * (a - g * s) <= (0x80_0001 + 3 * bits.top()) * s
        }),
{
    let rx = m.rotated(cut(x, m.dim));
    law_rotated_dimension(m, cut(x, m.dim));
    let (lower, step) = (offset_of(rx), step_of(rx, bits));
    lemma_ordinary(rx, bits, k);
    assert(!degenerate(m, x, bits));
    law_codes_kept(m, x, bits);
    assert(digits_of(rx, lower, step, bits)[k] == digit(rx[k], lower, step, bits));
}

/// The step of an ordinary vector is positive, and each coordinate has its
/// code.
pub proof fn lemma_ordinary(rx: Seq<Binary32>, bits: Bits, k: int)
    requires
        ordinary(rx, bits),
        0 <= k < rx.len(),
    ensures
        !step_of(rx, bits).at_most(Binary32 { bits: 0 }),
        step_of(rx, bits).units() > 0,
        ({
            let (lower, step) = (offset_of(rx), step_of(rx, bits));
            let (a, s) = (rx[k].units() - lower.units(), step.units());
            let g = digit(rx[k], lower, step, bits);
            &&& 0x100_0000 * (g * s - a) <= (0x80_0001 + 3 * bits.top()) * s
            &&& 0x100_0000 * (a - g * s) <= (0x80_0001 + 3 * bits.top()) * s
        }),
{
    reveal(step_of);
    let (lower, upper, step) = (offset_of(rx), greatest(rx, rx.len()), step_of(rx, bits));
    lemma_least(rx, rx.len());
    lemma_greatest(rx, rx.len());
    assert(rx[k].finite());
    lemma_difference(upper, lower);
    lemma_step_positive(upper.minus(lower), bits);
    lemma_body_order(0, step.body());
    law_code_error(rx[k], lower, upper, step, bits);
}

/// Natural numbers up to 255 are numbers of the format.
pub proof fn lemma_small_number(n: nat)
    requires
        n <= 255,
    ensures
        Binary32::of_nat(n).finite(),
        !Binary32::of_nat(n).negative(),
        Binary32::of_nat(n).magnitude() == n * pow2(149),
{
    lemma2_to64();
    lemma_limits();
    let u = pow2(149);
    let num = n * u;
    assert(num <= 256 * u) by (nonlinear_arith)
        requires
            num == n * u,
            n <= 255,
    ;
    law_rounding_monotone(num, 1, body_magnitude(0x4380_0000), 1);
    law_rounding_exact(0x4380_0000);
    let (q, m) = lemma_body_split(num, 1);
    lemma_pow2_pos(q);
    if q > 149 {
        lemma_pow2_strictly_increases(149, q);
        let p = pow2(q);
        assert(num >= 1 * p * 0x80_0000);
        assert(false) by (nonlinear_arith)
            requires
                num == n * u,
                n <= 255,
                num >= 1 * p * 0x80_0000,
                p > u,
                u > 0,
        ;
    }
    let r = (149 - q) as nat;
    lemma_pow2_adds(r, q);
    let (a, p) = (pow2(r), pow2(q));
    assert(num == (n * a) * p) by (nonlinear_arith)
        requires
            num == n * u,
            u == a * p,
    ;
    lemma_nearest_whole(n * a, p);
    assert(1 * p == p);
    lemma_split_magnitude(q, m);
}

/// The value restored from a code differs from the offset plus the step times
/// the code by two roundings.
#[verifier::spinoff_prover]
#[verifier::rlimit(40)]
pub proof fn lemma_restored_value(lower: Binary32, step: Binary32, g: nat)
    requires
        lower.finite(),
        step.finite(),
        !step.negative(),
        g <= 255,
        lower.plus(step.times(Binary32::of_nat(g))).finite(),
    ensures
        ({
            let r = lower.plus(step.times(Binary32::of_nat(g)));
            let e = r.units() - (lower.units() + g * step.units());
            &&& 0x100_0000 * e <= lower.magnitude() + 3 * (g * step.units())
            &&& -(0x100_0000 * e) <= lower.magnitude() + 3 * (g * step.units())
        }),
{
    lemma_small_number(g);
    let (s, u) = (step.magnitude(), pow2(149));
    lemma_pow2_pos(149);
    let n = s * g;
    assert(s * (g * u) == n * u) by (nonlinear_arith)
        requires
            n == s * g,
    ;
    assert(1 * u == u);
    lemma_body_scaled(n, 1, u);
    let p = step.times(Binary32::of_nat(g));
    assert(p == compose(false, round_body(n, 1)));
    assert(p.finite());
    law_rounding_relative(n, 1);
    let total = lower.units() + p.magnitude();
    let t = (if total < 0 {
        -total
    } else {
        total
    }) as nat;
    let r = lower.plus(p);
    lemma_round_nothing(1);
    assert(r.body() == round_body(t, 1));
    law_rounding_relative(t, 1);
    assert(g * s == n) by (nonlinear_arith)
        requires
            n == s * g,
    ;
}

/// Each rotated coordinate of an ordinary vector is restored from its code up
/// to half a step, `6 * top + 1` parts in `2^24` of a step, and one part in
/// `2^24` of the offset, all rounding included, where `top` is the largest code.
pub proof fn law_restored_error(m: RotationModel<Binary32>, x: Seq<Binary32>, bits: Bits, k: int)
    requires
        m.well_formed(),
        m.applies_to(m.dim),
        x.len() > 0,
        ordinary(m.rotated(cut(x, m.dim)), bits),
        0 <= k < m.dim,
        encoded(m, x, bits).restored()[k].finite(),
    ensures
        ({
            let c = encoded(m, x, bits);
            let e = c.restored()[k].units() - m.rotated(cut(x, m.dim))[k].units();
            let w = 0x80_0001 + 6 * bits.top();
            &&& c.restored().len() == m.dim
            &&& 0x100_0000 * e <= w * c.step.units() + c.lower.magnitude()
            &&& -(0x100_0000 * e) <= w * c.step.units() + c.lower.magnitude()
        }),
{
    law_encoded_error(m, x, bits, k);
    law_code_size(m, x, bits);
    let rx = m.rotated(cut(x, m.dim));
    law_rotated_dimension(m, cut(x, m.dim));
    lemma_least(rx, rx.len());
    let c = encoded(m, x, bits);
    let g = digits(bits, c.codes)[k];
    let s = c.step.units();
    lemma_restored_value(c.lower, c.step, g);
    let top = bits.top();
    assert(3 * (g * s) + (0x80_0001 + 3 * top) * s <= (0x80_0001 + 6 * top) * s)
        by (nonlinear_arith)
        requires
            g <= top,
            s > 0,
    ;
}

} // verus!
