//! Properties of rounding: it is monotone, keeps numbers of the format, and
//! errs by at most half a unit in the last place.

#[allow(unused_imports)]
use crate::binary32::{body_magnitude, lemma_body_order, lemma_body_parts};
#[allow(unused_imports)]
use crate::rounding::{
    lemma_body_scaled, lemma_body_steps, lemma_quotient, nearest, round_body, unbounded_body,
    INFINITY_BODY,
};
use vstd::arithmetic::div_mod::{lemma_fundamental_div_mod, lemma_mod_bound};
use vstd::arithmetic::power2::{
    lemma2_to64, lemma_pow2_adds, lemma_pow2_pos, lemma_pow2_unfold, pow2,
};
use vstd::prelude::*;

verus! {

/// A whole number is its own nearest integer.
pub proof fn lemma_nearest_whole(k: nat, d: nat)
    requires
        d > 0,
    ensures
        nearest(k * d, d) == k,
{
    lemma_quotient(k * d, d, k, 0);
}

/// The nearest integer is at most half away.
pub proof fn lemma_nearest_error(n: nat, d: nat)
    requires
        d > 0,
    ensures
        2 * n <= (2 * nearest(n, d) + 1) * d,
        2 * n + d >= 2 * (nearest(n, d) * d),
{
    let (f, r) = (n / d, n % d);
    lemma_fundamental_div_mod(n as int, d as int);
    lemma_mod_bound(n as int, d as int);
    let m = nearest(n, d);
    let p = d * f;
    assert((2 * f + 1) * d == 2 * p + d) by (nonlinear_arith)
        requires
            p == d * f,
    ;
    assert((2 * (f + 1) + 1) * d == 2 * p + 3 * d) by (nonlinear_arith)
        requires
            p == d * f,
    ;
    assert(f * d == p && (f + 1) * d == p + d) by (nonlinear_arith)
        requires
            p == d * f,
    ;
}

/// Nearest integers are ordered like the quotients.
pub proof fn lemma_nearest_monotone(a: nat, b: nat, d: nat)
    requires
        d > 0,
        a <= b,
    ensures
        nearest(a, d) <= nearest(b, d),
{
    let (f, r) = (a / d, a % d);
    let (g, s) = (b / d, b % d);
    lemma_fundamental_div_mod(a as int, d as int);
    lemma_mod_bound(a as int, d as int);
    lemma_fundamental_div_mod(b as int, d as int);
    lemma_mod_bound(b as int, d as int);
    assert(f <= g) by (nonlinear_arith)
        requires
            d * f + r <= d * g + s,
            0 <= r,
            s < d,
            d > 0,
    ;
}

/// Rounding over one denominator is monotone.
proof fn lemma_unbounded_monotone(a: nat, b: nat, den: nat)
    requires
        den > 0,
        a <= b,
    ensures
        unbounded_body(a, den) <= unbounded_body(b, den),
    decreases b - den,
{
    if b < den * 0x100_0000 {
        lemma_nearest_monotone(a, b, den);
    } else if a < den * 0x100_0000 {
        let limit = den * 0x100_0000;
        lemma_unbounded_monotone(limit, b, 2 * den);
        lemma_nearest_whole(0x80_0000, 2 * den);
        assert(0x80_0000 * (2 * den) == limit);
        lemma_nearest_monotone(a, limit, den);
        lemma_nearest_whole(0x100_0000, den);
        assert(0x100_0000 * den == limit);
    } else {
        lemma_unbounded_monotone(a, b, 2 * den);
    }
}

/// A greater or equal ratio is rounded to a greater or equal number.
pub proof fn law_rounding_monotone(num: nat, den: nat, num2: nat, den2: nat)
    requires
        den > 0,
        den2 > 0,
        num * den2 <= num2 * den,
    ensures
        round_body(num, den) <= round_body(num2, den2),
{
    lemma_body_scaled(num, den, den2);
    lemma_body_scaled(num2, den2, den);
    assert(den * den2 == den2 * den && den * den2 > 0) by (nonlinear_arith)
        requires
            den > 0,
            den2 > 0,
    ;
    lemma_unbounded_monotone(num * den2, num2 * den, den * den2);
}

/// The magnitude of a body made of a significand and an exponent.
pub proof fn lemma_split_magnitude(q: nat, m: nat)
    requires
        m <= 0x100_0000,
        q > 0 ==> m >= 0x80_0000,
    ensures
        body_magnitude(q * 0x80_0000 + m) == m * pow2(q),
{
    lemma2_to64();
    let b = q * 0x80_0000 + m;
    if m == 0x100_0000 {
        assert(b == (q + 2) * 0x80_0000);
        lemma_pow2_unfold(q + 1);
        assert(0x80_0000 * pow2(q + 1) == m * pow2(q)) by (nonlinear_arith)
            requires
                m == 0x100_0000,
                pow2(q + 1) == 2 * pow2(q),
        ;
    } else if m >= 0x80_0000 {
        assert(b / 0x80_0000 == q + 1);
        assert(b % 0x80_0000 == m - 0x80_0000);
    } else {
        assert(m * 1 == m);
    }
}

/// Rounding keeps the numbers of the format.
pub proof fn law_rounding_exact(body: nat)
    requires
        body <= INFINITY_BODY,
    ensures
        round_body(body_magnitude(body), 1) == body,
{
    let (m, e) = lemma_body_parts(body);
    let num = m * pow2(e);
    lemma2_to64();
    lemma_pow2_pos(e);
    lemma_pow2_adds(24, e);
    lemma_pow2_adds(23, e);
    assert(num < pow2(24 + e)) by (nonlinear_arith)
        requires
            num == m * pow2(e),
            pow2(24 + e) == 0x100_0000 * pow2(e),
            m < 0x100_0000,
            pow2(e) > 0,
    ;
    if e > 0 {
        assert(num >= pow2((23 + e) as nat)) by (nonlinear_arith)
            requires
                num == m * pow2(e),
                pow2((23 + e) as nat) == 0x80_0000 * pow2(e),
                m >= 0x80_0000,
        ;
    }
    assert(1 * pow2(e) == pow2(e) && 1 * pow2(24 + e) == pow2(24 + e) && 1 * pow2((23 + e) as nat)
        == pow2((23 + e) as nat));
    lemma_body_steps(num, 1, e);
    lemma_nearest_whole(m, pow2(e));
}

/// The significand and exponent that a ratio is rounded to.
pub proof fn lemma_body_split(num: nat, den: nat) -> (r: (nat, nat))
    requires
        den > 0,
    ensures
        unbounded_body(num, den) == r.0 * 0x80_0000 + r.1,
        r.1 == nearest(num, den * pow2(r.0)),
        r.1 <= 0x100_0000,
        r.0 > 0 ==> r.1 >= 0x80_0000,
        num < den * 0x100_0000 ==> r.0 == 0,
        num < den * pow2(r.0) * 0x100_0000,
        r.0 > 0 ==> num >= den * pow2(r.0) * 0x80_0000,
    decreases num - den,
{
    lemma2_to64();
    if num < den * 0x100_0000 {
        assert(den * 1 == den);
        lemma_nearest_monotone(num, den * 0x100_0000, den);
        lemma_nearest_whole(0x100_0000, den);
        assert(0x100_0000 * den == den * 0x100_0000);
        (0, nearest(num, den))
    } else {
        let (q, m) = lemma_body_split(num, 2 * den);
        lemma_pow2_unfold(q + 1);
        assert((2 * den) * pow2(q) == den * pow2(q + 1)) by (nonlinear_arith)
            requires
                pow2(q + 1) == 2 * pow2(q),
        ;
        if q == 0 {
            lemma_nearest_monotone(0x80_0000 * (2 * den), num, 2 * den);
            lemma_nearest_whole(0x80_0000, 2 * den);
            assert((2 * den) * 1 == 2 * den);
        }
        (q + 1, m)
    }
}

/// The distance of two natural numbers.
pub open spec fn gap(a: nat, b: nat) -> nat {
    if a < b {
        (b - a) as nat
    } else {
        (a - b) as nat
    }
}

/// The neighbours of a ratio: the body of the number below it, how far the
/// ratio is above that number, and how far apart the two neighbours are.
#[verifier::rlimit(40)]
proof fn lemma_neighbours(num: nat, den: nat) -> (r: (nat, nat, nat))
    requires
        den > 0,
    ensures
        ({
            let (lo, t, d) = r;
            let b = unbounded_body(num, den);
            &&& t < d
            &&& body_magnitude(lo) * den + t == num
            &&& body_magnitude(lo + 1) * den == body_magnitude(lo) * den + d
            &&& b == lo && (2 * t < d || (2 * t == d && lo % 2 == 0)) || b == lo + 1 && (2 * t > d
                || (2 * t == d && lo % 2 == 1))
        }),
{
    let (q, m) = lemma_body_split(num, den);
    let p = pow2(q);
    lemma_pow2_pos(q);
    let d = den * p;
    assert(d > 0) by (nonlinear_arith)
        requires
            d == den * p,
            den > 0,
            p > 0,
    ;
    let (f, t) = (num / d, num % d);
    lemma_fundamental_div_mod(num as int, d as int);
    lemma_mod_bound(num as int, d as int);
    assert(f < 0x100_0000) by (nonlinear_arith)
        requires
            num == d * f + t,
            num < d * 0x100_0000,
            t >= 0,
            d > 0,
    ;
    if q > 0 {
        assert(f >= 0x80_0000) by (nonlinear_arith)
            requires
                num == d * f + t,
                num >= d * 0x80_0000,
                t < d,
                d > 0,
        ;
    }
    let lo = q * 0x80_0000 + f;
    lemma_split_magnitude(q, f);
    lemma_split_magnitude(q, f + 1);
    let (ml, mh) = (body_magnitude(lo), body_magnitude(lo + 1));
    assert(ml * den == d * f) by (nonlinear_arith)
        requires
            ml == f * p,
            d == den * p,
    ;
    assert(mh * den == d * f + d) by (nonlinear_arith)
        requires
            mh == (f + 1) * p,
            d == den * p,
    ;
    assert(lo % 2 == f % 2);
    (lo, t, d)
}

/// No number of the format, were the exponent unbounded, is nearer to a ratio
/// than the one it is rounded to; where another is as near, that one has an
/// even body.
pub proof fn law_rounding_nearest(num: nat, den: nat, other: nat)
    requires
        den > 0,
    ensures
        gap(num, body_magnitude(unbounded_body(num, den)) * den) <= gap(
            num,
            body_magnitude(other) * den,
        ),
        other != unbounded_body(num, den) && gap(num, body_magnitude(other) * den) == gap(
            num,
            body_magnitude(unbounded_body(num, den)) * den,
        ) ==> unbounded_body(num, den) % 2 == 0,
{
    let (lo, t, d) = lemma_neighbours(num, den);
    let hi = lo + 1;
    if other < lo {
        lemma_scaled_order(other, lo, den);
    } else if other > hi {
        lemma_scaled_order(hi, other, den);
    }
}

/// A greater body stands for a greater multiple of `den`.
proof fn lemma_scaled_order(a: nat, b: nat, den: nat)
    requires
        a < b,
        den > 0,
    ensures
        body_magnitude(a) * den < body_magnitude(b) * den,
{
    lemma_body_order(a, b);
    let (p, q) = (body_magnitude(a), body_magnitude(b));
    assert(p * den < q * den) by (nonlinear_arith)
        requires
            p < q,
            den > 0,
    ;
}

/// A ratio that is rounded to a normal number exceeds it by at most one part in
/// `2^24`.
pub proof fn law_rounding_error(num: nat, den: nat)
    requires
        den > 0,
        0x80_0000 <= round_body(num, den) < INFINITY_BODY,
    ensures
        0x100_0000 * num <= 0x100_0001 * body_magnitude(round_body(num, den)) * den,
{
    let (q, m) = lemma_body_split(num, den);
    lemma_split_magnitude(q, m);
    let p = pow2(q);
    lemma_pow2_pos(q);
    let d = den * p;
    assert(d > 0) by (nonlinear_arith)
        requires
            d == den * p,
            den > 0,
            p > 0,
    ;
    lemma_nearest_error(num, d);
    assert(m >= 0x80_0000);
    assert(0x100_0000 * num <= 0x100_0001 * (m * d)) by (nonlinear_arith)
        requires
            2 * num <= (2 * m + 1) * d,
            m >= 0x80_0000,
            d > 0,
    ;
    assert(m * d == (m * p) * den) by (nonlinear_arith)
        requires
            d == den * p,
    ;
    assert(0x100_0001 * ((m * p) * den) == 0x100_0001 * (m * p) * den) by (nonlinear_arith);
}

/// A ratio of `num / den` units and the number it is rounded to differ by at
/// most one part in `2^24` of the ratio, plus half a unit where the units do
/// not divide it.
pub proof fn law_rounding_relative(num: nat, den: nat)
    requires
        den > 0,
        round_body(num, den) < INFINITY_BODY,
    ensures
        0x100_0000 * gap(num, body_magnitude(round_body(num, den)) * den) <= num + 0x80_0000 * den,
        den == 1 ==> 0x100_0000 * gap(num, body_magnitude(round_body(num, den))) <= num,
{
    let (q, m) = lemma_body_split(num, den);
    lemma_split_magnitude(q, m);
    let p = pow2(q);
    lemma_pow2_pos(q);
    let d = den * p;
    assert(d > 0) by (nonlinear_arith)
        requires
            d == den * p,
            den > 0,
            p > 0,
    ;
    lemma_nearest_error(num, d);
    assert((2 * m + 1) * d == 2 * (m * d) + d) by (nonlinear_arith);
    assert(m * d == (m * p) * den) by (nonlinear_arith)
        requires
            d == den * p,
    ;
    if q == 0 {
        lemma2_to64();
        assert(den * 1 == den);
        if den == 1 {
            lemma_nearest_whole(num, 1);
            assert(num * 1 == num);
        }
    } else {
        assert(2 * gap(num, m * d) <= d);
        assert(num >= d * 0x80_0000);
    }
    assert(den == 1 ==> (m * p) * den == m * p) by (nonlinear_arith);
}

} // verus!
