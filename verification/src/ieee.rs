//! What the operations of single precision return, in terms of the values of
//! their operands.

use crate::arith::Arithmetic;
#[allow(unused_imports)]
use crate::binary32::{body_magnitude, compose, Binary32};
#[allow(unused_imports)]
use crate::binary32::lemma_body_order;
#[allow(unused_imports)]
use crate::drift::magnitude_of;
#[allow(unused_imports)]
use crate::precision::{gap, law_rounding_nearest};
#[allow(unused_imports)]
use crate::rounded::{law_key_order, lemma_round_nothing};
#[allow(unused_imports)]
use crate::rounding::{round_body, unbounded_body, INFINITY_BODY};
use vstd::arithmetic::power2::{
    lemma2_to64, lemma_pow2_adds, lemma_pow2_pos, lemma_pow2_unfold, pow2,
};
use vstd::prelude::*;

verus! {

/// The values of the format: bodies up to `2^24` are that many units, and each
/// further step of the exponent field doubles the value. The sign bit negates.
pub proof fn law_format(body: nat, a: Binary32)
    ensures
        body < 0x100_0000 ==> body_magnitude(body) == body,
        body >= 0x80_0000 ==> body_magnitude(body + 0x80_0000) == 2 * body_magnitude(body),
        a.bits < 0x8000_0000 ==> a.units() == body_magnitude(a.bits as nat),
        a.bits >= 0x8000_0000 ==> a.units() == -body_magnitude((a.bits - 0x8000_0000) as nat),
        a.finite() <==> a.bits % 0x8000_0000 < 0x7f80_0000,
        a.nan() <==> a.bits % 0x8000_0000 > 0x7f80_0000,
{
    lemma2_to64();
    if 0x80_0000 <= body < 0x100_0000 {
        assert(body / 0x80_0000 == 1 && body % 0x80_0000 == body - 0x80_0000);
        let m = 0x80_0000 + body % 0x80_0000;
        assert(m * pow2(0) == m);
    }
    if body >= 0x80_0000 {
        let (e, m) = (body / 0x80_0000, 0x80_0000 + body % 0x80_0000);
        assert((body + 0x80_0000) / 0x80_0000 == e + 1);
        assert((body + 0x80_0000) % 0x80_0000 == body % 0x80_0000);
        let (p, q) = (pow2((e - 1) as nat), pow2(e));
        lemma_pow2_unfold(e);
        assert(m * q == 2 * (m * p)) by (nonlinear_arith)
            requires
                q == 2 * p,
        ;
    }
}

/// The number `r` for the exact value `t / den`, in units: where it is finite,
/// no number is nearer, and of two that are as near it has the even body; where
/// it is infinite, it has the sign of the value, which is not below the middle
/// of the greatest number and `2^128`.
pub open spec fn correctly_rounded(r: Binary32, t: int, den: int) -> bool {
    &&& !r.nan()
    &&& r.finite() ==> forall|c: Binary32| #[trigger]
        c.finite() ==> {
            let (d, e) = (magnitude_of(r.units() * den - t), magnitude_of(c.units() * den - t));
            &&& d <= e
            &&& d == e && c.units() != r.units() ==> r.body() % 2 == 0
        }
    &&& r.finite() ==> 2 * magnitude_of(t) <= (body_magnitude(0x7f7f_ffff) + pow2(277)) * den
    &&& r.infinite() ==> 2 * magnitude_of(t) >= (body_magnitude(0x7f7f_ffff) + pow2(277)) * den
    &&& t != 0 ==> (r.negative() <==> t < 0)
}

/// The magnitude of the body of infinity.
proof fn lemma_infinity()
    ensures
        body_magnitude(INFINITY_BODY as nat) == pow2(277),
        body_magnitude(0x7f7f_ffff) < pow2(277),
{
    lemma2_to64();
    lemma_pow2_adds(23, 254);
    assert(body_magnitude(0x7f80_0000) == 0x80_0000 * pow2(254));
    lemma_body_order(0x7f7f_ffff, 0x7f80_0000);
}

/// A signed number of units against the magnitude.
proof fn lemma_signed_gap(negative: bool, num: nat, den: nat, m: nat, r: Binary32)
    requires
        r.magnitude() == m,
        r.negative() == negative || m == 0,
    ensures
        ({
            let t = if negative {
                -(num as int)
            } else {
                num as int
            };
            magnitude_of(r.units() * den - t) == gap(num, m * den)
        }),
{
    let p = m * den;
    assert(r.units() * den == p || r.units() * den == -p) by (nonlinear_arith)
        requires
            p == m * den,
            r.units() == m || r.units() == -m,
    ;
    if m == 0 {
        assert(p == 0) by (nonlinear_arith)
            requires
                p == m * den,
                m == 0,
        ;
    }
    if r.negative() {
        assert(r.units() * den == -p) by (nonlinear_arith)
            requires
                p == m * den,
                r.units() == -m,
        ;
    } else {
        assert(r.units() * den == p) by (nonlinear_arith)
            requires
                p == m * den,
                r.units() == m,
        ;
    }
}

/// A rounded ratio is correctly rounded.
proof fn lemma_correctly_rounded(negative: bool, num: nat, den: nat)
    requires
        den > 0,
    ensures
        correctly_rounded(
            compose(negative, round_body(num, den)),
            if negative {
                -(num as int)
            } else {
                num as int
            },
            den as int,
        ),
{
    let r = compose(negative, round_body(num, den));
    let t = if negative {
        -(num as int)
    } else {
        num as int
    };
    let ub = unbounded_body(num, den);
    lemma_infinity();
    assert(r.body() == round_body(num, den));
    assert(r.negative() == negative);
    if r.finite() {
        assert(ub == r.body());
        assert forall|c: Binary32| #[trigger] c.finite() implies {
            let (d, e) = (magnitude_of(r.units() * den - t), magnitude_of(c.units() * den - t));
            &&& d <= e
            &&& d == e && c.units() != r.units() ==> r.body() % 2 == 0
        } by {
            lemma_no_nearer(negative, num, den, r, c);
        }
        lemma_below_middle(num, den, ub);
    } else {
        lemma_above_middle(num, den, ub);
    }
}

/// No number is nearer to a ratio than the one it is rounded to.
proof fn lemma_no_nearer(negative: bool, num: nat, den: nat, r: Binary32, c: Binary32)
    requires
        den > 0,
        r.finite(),
        r.negative() == negative,
        r.body() == unbounded_body(num, den),
        c.finite(),
    ensures
        ({
            let t = if negative {
                -(num as int)
            } else {
                num as int
            };
            let (d, e) = (magnitude_of(r.units() * den - t), magnitude_of(c.units() * den - t));
            &&& d <= e
            &&& d == e && c.units() != r.units() ==> r.body() % 2 == 0
        }),
{
    let (m, k) = (r.magnitude(), c.magnitude());
    lemma_signed_gap(negative, num, den, m, r);
    if c.negative() == negative || k == 0 {
        lemma_signed_gap(negative, num, den, k, c);
        law_rounding_nearest(num, den, c.body());
        if c.body() == r.body() {
            assert(k == m);
        }
    } else {
        // On the other side of zero, and so farther than zero.
        law_rounding_nearest(num, den, 0);
        assert(body_magnitude(0) == 0 && 0 * den == 0);
        let p = k * den;
        assert(p > 0) by (nonlinear_arith)
            requires
                p == k * den,
                k > 0,
                den > 0,
        ;
        assert(c.units() * den == (if negative {
            p as int
        } else {
            -p
        })) by (nonlinear_arith)
            requires
                p == k * den,
                c.units() == (if negative {
                    k as int
                } else {
                    -k
                }),
        ;
    }
}

/// A ratio that is rounded below infinity.
proof fn lemma_below_middle(num: nat, den: nat, ub: nat)
    requires
        den > 0,
        ub == unbounded_body(num, den),
        ub < INFINITY_BODY,
    ensures
        2 * num <= (body_magnitude(0x7f7f_ffff) + pow2(277)) * den,
{
    lemma_infinity();
    law_rounding_nearest(num, den, INFINITY_BODY as nat);
    let (a, g, b) = (body_magnitude(ub), body_magnitude(0x7f7f_ffff), pow2(277));
    if ub < 0x7f7f_ffff {
        lemma_body_order(ub, 0x7f7f_ffff);
    }
    assert(2 * num <= (g + b) * den) by (nonlinear_arith)
        requires
            a <= g,
            g < b,
            den > 0,
            num <= a * den || num - a * den <= gap(num, b * den),
            gap(num, b * den) == (if num >= b * den {
                num - b * den
            } else {
                b * den - num
            }),
    ;
}

/// A ratio that is rounded to infinity.
proof fn lemma_above_middle(num: nat, den: nat, ub: nat)
    requires
        den > 0,
        ub == unbounded_body(num, den),
        ub >= INFINITY_BODY,
    ensures
        2 * num >= (body_magnitude(0x7f7f_ffff) + pow2(277)) * den,
{
    lemma_infinity();
    law_rounding_nearest(num, den, 0x7f7f_ffff);
    let (a, g, b) = (body_magnitude(ub), body_magnitude(0x7f7f_ffff), pow2(277));
    if ub > INFINITY_BODY {
        lemma_body_order(INFINITY_BODY as nat, ub);
    }
    assert(2 * num >= (g + b) * den) by (nonlinear_arith)
        requires
            a >= b,
            g < b,
            den > 0,
            num >= a * den || a * den - num <= gap(num, g * den),
            gap(num, g * den) == (if num >= g * den {
                num - g * den
            } else {
                g * den - num
            }),
    ;
}

/// Sums and differences of finite numbers are correctly rounded.
pub proof fn law_sum(a: Binary32, b: Binary32)
    requires
        a.finite(),
        b.finite(),
    ensures
        correctly_rounded(a.plus(b), a.units() + b.units(), 1),
        correctly_rounded(a.minus(b), a.units() - b.units(), 1),
{
    lemma_sum(a, b);
    let n = b.negated();
    assert(n.body() == b.body() && n.units() == -b.units());
    lemma_sum(a, n);
}

proof fn lemma_sum(a: Binary32, b: Binary32)
    requires
        a.finite(),
        b.finite(),
    ensures
        correctly_rounded(a.plus(b), a.units() + b.units(), 1),
{
    let t = a.units() + b.units();
    lemma_round_nothing(1);
    if t == 0 {
        lemma_correctly_rounded(a.negative() && b.negative(), 0, 1);
    } else if t < 0 {
        lemma_correctly_rounded(true, (-t) as nat, 1);
    } else {
        lemma_correctly_rounded(false, t as nat, 1);
    }
}

/// Products of finite numbers are correctly rounded.
pub proof fn law_product(a: Binary32, b: Binary32)
    requires
        a.finite(),
        b.finite(),
    ensures
        correctly_rounded(a.times(b), a.units() * b.units(), pow2(149) as int),
{
    lemma_pow2_pos(149);
    let (x, y) = (a.magnitude(), b.magnitude());
    let negative = a.negative() != b.negative();
    lemma_correctly_rounded(negative, x * y, pow2(149));
    assert(a.units() * b.units() == if negative {
        -(x * y)
    } else {
        (x * y) as int
    }) by (nonlinear_arith)
        requires
            a.units() == (if a.negative() {
                -(x as int)
            } else {
                x as int
            }),
            b.units() == (if b.negative() {
                -(y as int)
            } else {
                y as int
            }),
            negative == (a.negative() != b.negative()),
    ;
}

/// Quotients of finite numbers by finite numbers other than zero are correctly
/// rounded.
pub proof fn law_quotient(a: Binary32, b: Binary32)
    requires
        a.finite(),
        b.finite(),
        !b.is_zero(),
    ensures
        correctly_rounded(
            a.over(b),
            if b.negative() {
                -(a.units() * pow2(149))
            } else {
                a.units() * pow2(149)
            },
            b.magnitude() as int,
        ),
{
    let (x, u) = (a.magnitude(), pow2(149));
    let negative = a.negative() != b.negative();
    lemma_body_order(0, b.body());
    lemma_correctly_rounded(negative, x * u, b.magnitude());
    let p = a.units() * u;
    assert(p == if a.negative() {
        -(x * u)
    } else {
        (x * u) as int
    }) by (nonlinear_arith)
        requires
            p == a.units() * u,
            a.units() == (if a.negative() {
                -(x as int)
            } else {
                x as int
            }),
    ;
}

/// Natural numbers are correctly rounded.
pub proof fn law_natural(n: nat)
    ensures
        correctly_rounded(Binary32::of_nat(n), (n * pow2(149)) as int, 1),
{
    lemma_correctly_rounded(false, n * pow2(149), 1);
}

/// A number as a byte: its integral part, at least 0 and at most 255.
pub proof fn law_byte(a: Binary32)
    ensures
        a.nan() ==> a.saturated() == 0,
        !a.nan() && a.negative() ==> a.saturated() == 0,
        a.infinite() && !a.negative() ==> a.saturated() == 255,
        a.finite() && 0 <= a.units() < 256 * pow2(149) ==> a.saturated() * pow2(149) <= a.units()
            < (a.saturated() + 1) * pow2(149),
        a.finite() && a.units() >= 256 * pow2(149) ==> a.saturated() == 255,
{
    lemma_pow2_pos(149);
    let (m, u) = (a.magnitude(), pow2(149));
    let q = m / u;
    vstd::arithmetic::div_mod::lemma_fundamental_div_mod(m as int, u as int);
    vstd::arithmetic::div_mod::lemma_mod_bound(m as int, u as int);
    assert(q * u <= m < (q + 1) * u) by (nonlinear_arith)
        requires
            m == u * q + m % u,
            0 <= m % u < u,
    ;
    if m < 256 * u {
        assert(q < 256) by (nonlinear_arith)
            requires
                q * u <= m,
                m < 256 * u,
        ;
    } else {
        assert(q >= 256) by (nonlinear_arith)
            requires
                m < (q + 1) * u,
                m >= 256 * u,
        ;
    }
    if a.negative() && a.finite() && a.units() >= 0 {
        assert(m == 0);
        assert(0 * u == 0);
    }
}

/// Comparing finite numbers compares their values; the lesser and the greater of
/// two are among them.
pub proof fn law_order(a: Binary32, b: Binary32)
    ensures
        a.finite() && b.finite() ==> {
            &&& a.at_most(b) == (a.units() <= b.units())
            &&& a.below(b) == (a.units() < b.units())
        },
        !a.nan() && !b.nan() ==> {
            &&& a.lesser(b).at_most(a) && a.lesser(b).at_most(b)
            &&& a.at_most(a.greater(b)) && b.at_most(a.greater(b))
        },
        a.lesser(b) == a || a.lesser(b) == b,
        a.greater(b) == a || a.greater(b) == b,
        a.nan() ==> a.lesser(b) == b && a.greater(b) == b && !a.at_most(b) && !a.below(b),
        b.nan() && !a.nan() ==> a.lesser(b) == a && a.greater(b) == a && !a.at_most(b) && !a.below(
            b,
        ),
{
    if a.finite() && b.finite() {
        law_key_order(a, b);
    }
}

/// Operations on infinities and on what is not a number.
pub proof fn law_special_values(a: Binary32, b: Binary32)
    ensures
        a.nan() || b.nan() ==> a.plus(b).nan() && a.minus(b).nan() && a.times(b).nan() && a.over(
            b,
        ).nan(),
        a.infinite() && b.infinite() ==> {
            &&& a.negative() != b.negative() ==> a.plus(b).nan() && a.minus(b) == a
            &&& a.negative() == b.negative() ==> a.minus(b).nan() && a.plus(b) == a
            &&& a.over(b).nan()
        },
        a.infinite() && b.finite() ==> a.plus(b) == a && a.minus(b) == a && b.plus(a) == a,
        a.infinite() && b.is_zero() ==> a.times(b).nan() && b.times(a).nan(),
        a.infinite() && !b.nan() && !b.is_zero() ==> {
            &&& a.times(b).infinite() && b.times(a).infinite()
            &&& a.times(b).negative() == (a.negative() != b.negative())
            &&& b.times(a).negative() == (a.negative() != b.negative())
        },
        a.infinite() && b.finite() ==> {
            &&& a.over(b).infinite()
            &&& a.over(b).negative() == (a.negative() != b.negative())
            &&& b.over(a).is_zero()
        },
        a.finite() && b.is_zero() ==> a.over(b).nan() == a.is_zero(),
        a.finite() && !a.is_zero() && b.is_zero() ==> a.over(b).infinite() && a.over(b).negative()
            == (a.negative() != b.negative()),
{
    let n = b.negated();
    assert(n.body() == b.body() && n.negative() != b.negative());
}

} // verus!
