//! What multiplying a vector by a power of two does to its rotation and its
//! code, rounding included.

#[allow(unused_imports)]
use crate::accuracy::lemma_normal_number;
#[allow(unused_imports)]
use crate::arith::Arithmetic;
#[allow(unused_imports)]
use crate::binary32::{
    body_magnitude, compose, lemma_body_order, Binary32, INFINITY_BITS, NEG_INFINITY_BITS, ONE_BITS,
};
#[allow(unused_imports)]
use crate::code::{Bits, CodeModel};
#[allow(unused_imports)]
use crate::drift::{
    all_finite, lemma_factor_parts, lemma_plain_round, lemma_scaled_magnitude, lemma_scaled_number,
    swaps_fit,
};
#[allow(unused_imports)]
use crate::encoding::{
    cut, degenerate, digits_of, dot_upto, encoded, greatest, least, level, offset_of, quantized,
    stored_total, step_of,
};
#[allow(unused_imports)]
use crate::hadamard::{
    blockwise, butterfly, hadamard, lemma_blockwise_len, lemma_hadamard_len, normalized, scaled,
};
#[allow(unused_imports)]
use crate::laws::{
    law_rotated_dimension, lemma_forward_len, lemma_swap_pass_len, plain_rotation,
};
use crate::pairing::Swap;
#[allow(unused_imports)]
use crate::precision::{law_rounding_exact, law_rounding_monotone, lemma_nearest_whole};
#[allow(unused_imports)]
use crate::rotation::{padded, swap_pass, swap_step, RotationModel};
#[allow(unused_imports)]
use crate::rounded::{
    is_sign, law_key_order, lemma_constants, lemma_difference, lemma_greatest, lemma_least,
    lemma_round_nothing,
};
#[allow(unused_imports)]
use crate::rounding::{lemma_body_scaled, nearest, round_body, unbounded_body, INFINITY_BODY};
use vstd::arithmetic::power2::{
    lemma2_to64, lemma_pow2_adds, lemma_pow2_pos, lemma_pow2_unfold, pow2,
};
use vstd::prelude::*;

verus! {

/// A number times `2^k`, rounded; the rounding changes only a result that is
/// too large for the format.
#[verifier::opaque]
pub open spec fn lifted(a: Binary32, k: nat) -> Binary32 {
    if a.finite() {
        compose(a.negative(), round_body(pow2(k) * a.magnitude(), 1))
    } else {
        a
    }
}

/// The body, were the exponent unbounded, of twice a magnitude.
proof fn lemma_double_body(b: nat) -> (c: nat)
    ensures
        body_magnitude(c) == 2 * body_magnitude(b),
        c >= b,
{
    lemma2_to64();
    if b < 0x80_0000 {
        let c = 2 * b;
        if c >= 0x80_0000 {
            assert(c / 0x80_0000 == 1);
            assert(body_magnitude(c) == (0x80_0000 + c % 0x80_0000) * pow2(0));
        }
        c
    } else {
        let c = b + 0x80_0000;
        let e = (b / 0x80_0000 - 1) as nat;
        assert(c / 0x80_0000 == e + 2 && c % 0x80_0000 == b % 0x80_0000);
        lemma_pow2_unfold(e + 1);
        let (s, p) = (0x80_0000 + b % 0x80_0000, pow2(e));
        assert(s * (2 * p) == 2 * (s * p)) by (nonlinear_arith);
        c
    }
}

/// The body, were the exponent unbounded, of a magnitude times `2^k`.
proof fn lemma_lifted_body(b: nat, k: nat) -> (c: nat)
    ensures
        body_magnitude(c) == pow2(k) * body_magnitude(b),
        c >= b,
    decreases k,
{
    lemma2_to64();
    if k == 0 {
        assert(1 * body_magnitude(b) == body_magnitude(b));
        b
    } else {
        let d = lemma_lifted_body(b, (k - 1) as nat);
        lemma_pow2_unfold(k);
        let (p, m) = (pow2((k - 1) as nat), body_magnitude(b));
        assert((2 * p) * m == 2 * (p * m)) by (nonlinear_arith);
        lemma_double_body(d)
    }
}

/// A magnitude times `2^k` is rounded to itself, or to infinity.
proof fn lemma_lifted_exact(b: nat, k: nat)
    requires
        round_body(pow2(k) * body_magnitude(b), 1) < INFINITY_BODY,
    ensures
        body_magnitude(round_body(pow2(k) * body_magnitude(b), 1)) == pow2(k) * body_magnitude(b),
        b < INFINITY_BODY,
{
    let c = lemma_lifted_body(b, k);
    if c < INFINITY_BODY {
        law_rounding_exact(c);
    } else {
        law_rounding_exact(INFINITY_BODY as nat);
        if c > INFINITY_BODY {
            lemma_body_order(INFINITY_BODY as nat, c);
        }
        law_rounding_monotone(body_magnitude(INFINITY_BODY as nat), 1, body_magnitude(c), 1);
    }
}

/// What a number times `2^k` is, where that is finite.
proof fn lemma_lifted(a: Binary32, k: nat)
    requires
        lifted(a, k).finite(),
    ensures
        a.finite(),
        lifted(a, k).negative() == a.negative(),
        lifted(a, k).magnitude() == pow2(k) * a.magnitude(),
        lifted(a, k).units() == pow2(k) * a.units(),
        lifted(a, k).is_zero() <==> a.is_zero(),
{
    reveal(lifted);
    let (m, p) = (a.magnitude(), pow2(k));
    lemma_lifted_exact(a.body(), k);
    lemma_pow2_pos(k);
    assert(p * (-(m as int)) == -(p * m)) by (nonlinear_arith);
    if a.is_zero() {
        assert(p * 0 == 0);
        law_rounding_exact(0);
    } else {
        lemma_body_order(0, a.body());
        assert(p * m > 0) by (nonlinear_arith)
            requires
                p > 0,
                m > 0,
        ;
    }
}

/// Rounding twice a magnitude is rounding twice the rounded magnitude.
proof fn lemma_double_rounding(n: nat)
    requires
        round_body(2 * n, 1) < INFINITY_BODY,
    ensures
        round_body(n, 1) < INFINITY_BODY,
        round_body(2 * body_magnitude(round_body(n, 1)), 1) == round_body(2 * n, 1),
{
    law_rounding_monotone(n, 1, 2 * n, 1);
    lemma2_to64();
    if n < 0x100_0000 {
        assert(unbounded_body(n, 1) == nearest(n, 1));
        assert(nearest(n, 1) == n);
        if n >= 0x80_0000 {
            assert(n / 0x80_0000 == 1);
            assert(body_magnitude(n) == (0x80_0000 + n % 0x80_0000) * pow2(0));
        }
    } else {
        lemma_body_scaled(n, 1, 2);
        assert(n * 2 == 2 * n);
        assert(unbounded_body(2 * n, 1) == 0x80_0000 + unbounded_body(2 * n, 2));
        let b = unbounded_body(n, 1);
        assert(b >= 0x80_0000);
        let e = (b / 0x80_0000 - 1) as nat;
        let d = b + 0x80_0000;
        assert(d / 0x80_0000 == e + 2 && d % 0x80_0000 == b % 0x80_0000);
        lemma_pow2_unfold(e + 1);
        let (s, p) = (0x80_0000 + b % 0x80_0000, pow2(e));
        assert(s * (2 * p) == 2 * (s * p)) by (nonlinear_arith);
        law_rounding_exact(d);
    }
}

/// Rounding a magnitude times `2^k` is rounding the rounded magnitude times
/// `2^k`.
proof fn lemma_lifted_rounding(n: nat, k: nat)
    requires
        round_body(pow2(k) * n, 1) < INFINITY_BODY,
    ensures
        round_body(n, 1) < INFINITY_BODY,
        round_body(pow2(k) * body_magnitude(round_body(n, 1)), 1) == round_body(pow2(k) * n, 1),
    decreases k,
{
    lemma2_to64();
    let m = body_magnitude(round_body(n, 1));
    if k == 0 {
        assert(1 * n == n && 1 * m == m);
        law_rounding_exact(round_body(n, 1));
    } else {
        let j = (k - 1) as nat;
        lemma_pow2_unfold(k);
        let p = pow2(j);
        assert((2 * p) * n == 2 * (p * n) && (2 * p) * m == 2 * (p * m)) by (nonlinear_arith);
        lemma_double_rounding(p * n);
        lemma_lifted_rounding(n, j);
        lemma_lifted_exact(round_body(n, 1), j);
    }
}

/// A whole number of units, rounded, with the sign of a zero.
spec fn whole(zero_negative: bool, t: int) -> Binary32 {
    if t == 0 {
        compose(zero_negative, 0)
    } else if t < 0 {
        compose(true, round_body((-t) as nat, 1))
    } else {
        compose(false, round_body(t as nat, 1))
    }
}

/// A whole number of units times `2^k`.
proof fn lemma_lifted_whole(z: bool, t: int, k: nat)
    requires
        whole(z, pow2(k) * t).finite(),
    ensures
        whole(z, t).finite(),
        whole(z, pow2(k) * t) == lifted(whole(z, t), k),
{
    reveal(lifted);
    lemma_pow2_pos(k);
    let p = pow2(k);
    let n = (if t < 0 {
        -t
    } else {
        t
    }) as nat;
    assert(p * (-t) == -(p * t)) by (nonlinear_arith);
    if t == 0 {
        assert(p * 0 == 0);
        law_rounding_exact(0);
    } else {
        assert(p * n > 0) by (nonlinear_arith)
            requires
                p > 0,
                n > 0,
        ;
        lemma_lifted_rounding(n, k);
        let a = whole(z, t);
        assert(a.body() == round_body(n, 1) && a.negative() == (t < 0));
    }
}

/// Times `2^k`, a sum is the sum of its terms times `2^k`.
proof fn lemma_lifted_sum(a: Binary32, b: Binary32, k: nat)
    requires
        lifted(a, k).plus(lifted(b, k)).finite(),
    ensures
        a.finite(),
        b.finite(),
        lifted(a, k).finite(),
        lifted(b, k).finite(),
        a.plus(b).finite(),
        lifted(a, k).plus(lifted(b, k)) == lifted(a.plus(b), k),
{
    let (c, d) = (lifted(a, k), lifted(b, k));
    assert(c.finite() && d.finite());
    lemma_lifted(a, k);
    lemma_lifted(b, k);
    let (x, y, p, z) = (a.units(), b.units(), pow2(k), a.negative() && b.negative());
    assert(p * x + p * y == p * (x + y)) by (nonlinear_arith);
    assert(c.plus(d) == whole(z, p * (x + y)));
    assert(a.plus(b) == whole(z, x + y));
    lemma_lifted_whole(z, x + y, k);
}

/// Times `2^k`, a difference is the difference of its terms times `2^k`.
proof fn lemma_lifted_difference(a: Binary32, b: Binary32, k: nat)
    requires
        lifted(a, k).minus(lifted(b, k)).finite(),
    ensures
        a.finite(),
        b.finite(),
        lifted(a, k).finite(),
        lifted(b, k).finite(),
        a.minus(b).finite(),
        lifted(a, k).minus(lifted(b, k)) == lifted(a.minus(b), k),
{
    lemma_lifted_negated(b, k);
    lemma_lifted_sum(a, b.negated(), k);
}

/// The opposite of a number times `2^k`.
proof fn lemma_lifted_negated(a: Binary32, k: nat)
    ensures
        lifted(a.negated(), k) == lifted(a, k).negated(),
        a.negated().finite() == a.finite(),
        lifted(a.negated(), k).finite() == lifted(a, k).finite(),
{
    reveal(lifted);
    assert(a.negated().body() == a.body());
    assert(a.negated().negative() == !a.negative());
}

/// A number that is divided by 16 without rounding: the quotient is a normal
/// number or a whole number of units.
pub open spec fn scalable(a: Binary32) -> bool {
    a.magnitude() >= 0x800_0000 || a.magnitude() % 16 == 0
}

/// A small whole quotient is its own body.
proof fn lemma_whole_quotient(q: nat, d: nat)
    requires
        d > 0,
        q < 0x100_0000,
    ensures
        round_body(q * d, d) == q,
        body_magnitude(q) == q,
{
    lemma2_to64();
    lemma_nearest_whole(q, d);
    assert(q * d < d * 0x100_0000) by (nonlinear_arith)
        requires
            q < 0x100_0000,
            d > 0,
    ;
    if q >= 0x80_0000 {
        assert(q / 0x80_0000 == 1);
        assert(body_magnitude(q) == (0x80_0000 + q % 0x80_0000) * pow2(0));
    }
}

/// A scalable magnitude is divided by 8 or 16 without rounding.
proof fn lemma_divided_body(body: nat, e: nat)
    requires
        body < INFINITY_BODY,
        body_magnitude(body) >= 0x800_0000 || body_magnitude(body) % 16 == 0,
        e == 3 || e == 4,
    ensures
        pow2(e) * body_magnitude(round_body(body_magnitude(body), pow2(e))) == body_magnitude(body),
{
    lemma2_to64();
    if body < (e + 1) * 0x80_0000 {
        let m = body_magnitude(body);
        assert(body_magnitude(5 * 0x80_0000) == 0x80_0000 * pow2(4));
        lemma_body_order(body, 5 * 0x80_0000);
        if e == 3 {
            assert(m == (m / 8) * 8);
            lemma_whole_quotient(m / 8, 8);
        } else {
            assert(m == (m / 16) * 16);
            lemma_whole_quotient(m / 16, 16);
        }
    } else {
        lemma_scaled_magnitude(body, e);
    }
}

/// Dividing a scalable number by 8 or 16 is exact.
proof fn lemma_divided(a: Binary32, e: nat)
    requires
        a.finite(),
        scalable(a),
        e == 3 || e == 4,
    ensures
        ({
            let h = Binary32::half_pow(e).times(a);
            &&& h.finite()
            &&& h.negative() == a.negative()
            &&& pow2(e) * h.magnitude() == a.magnitude()
        }),
{
    lemma_scaled_number(a, e);
    lemma_divided_body(a.body(), e);
    let b = round_body(a.magnitude(), pow2(e));
    let h = compose(a.negative(), b);
    assert(h.body() == b && h.negative() == a.negative());
}

/// Times `2^k`, the quotient of a scalable number is the quotient of the number
/// times `2^k`.
proof fn lemma_lifted_divided(a: Binary32, e: nat, k: nat)
    requires
        scalable(a),
        e == 3 || e == 4,
        lifted(a, k).finite(),
    ensures
        a.finite(),
        Binary32::half_pow(e).times(lifted(a, k)).finite(),
        Binary32::half_pow(e).times(lifted(a, k)) == lifted(Binary32::half_pow(e).times(a), k),
{
    lemma_lifted(a, k);
    let b = lifted(a, k);
    let (h, c) = (Binary32::half_pow(e).times(a), Binary32::half_pow(e).times(b));
    let (p, d) = (pow2(k), pow2(e));
    lemma_pow2_pos(k);
    lemma_pow2_pos(e);
    lemma_lifted_scalable(a.magnitude(), p);
    lemma_divided(a, e);
    lemma_divided(b, e);
    let (x, y) = (h.magnitude(), c.magnitude());
    assert(p * x == y) by (nonlinear_arith)
        requires
            d * y == p * (d * x),
            d > 0,
    ;
    law_rounding_exact(c.body());
    reveal(lifted);
}

/// Multiples of scalable magnitudes are scalable.
proof fn lemma_lifted_scalable(m: nat, p: nat)
    requires
        m >= 0x800_0000 || m % 16 == 0,
        p > 0,
    ensures
        p * m >= 0x800_0000 || (p * m) % 16 == 0,
{
    if m >= 0x800_0000 {
        assert(p * m >= m) by (nonlinear_arith)
            requires
                p > 0,
        ;
    } else {
        let q = m / 16;
        assert(p * m == 16 * (p * q)) by (nonlinear_arith)
            requires
                m == 16 * q,
        ;
    }
}

/// Numbers whose product is rounded to a normal number, or not at all.
pub open spec fn steady(a: Binary32, b: Binary32) -> bool {
    let n = a.magnitude() * b.magnitude();
    n >= pow2(149) * 0x80_0000 || n % pow2(149) == 0
}

/// The factors of a finite product are finite.
proof fn lemma_finite_factors(a: Binary32, b: Binary32)
    requires
        a.times(b).finite(),
    ensures
        a.finite(),
        b.finite(),
{
}

/// Times `2^k`, a number with a sign is the number times `2^k` with that sign.
/// The sign may be any number.
proof fn lemma_lifted_signed(s: Binary32, a: Binary32, k: nat)
    requires
        steady(s, a),
        s.times(lifted(a, k)).finite(),
    ensures
        lifted(a, k).finite(),
        s.times(lifted(a, k)) == lifted(s.times(a), k),
{
    lemma_finite_factors(s, lifted(a, k));
    lemma_lifted(a, k);
    let (c, m, p, u) = (s.magnitude(), a.magnitude(), pow2(k), pow2(149));
    let n = c * m;
    assert(c * (p * m) == p * n) by (nonlinear_arith)
        requires
            n == c * m,
    ;
    lemma_lifted_product(n, k);
    let (t, z) = (s.times(a), s.negative() != a.negative());
    assert(t == compose(z, round_body(n, u)));
    assert(t.body() == round_body(n, u) && t.negative() == z);
    reveal(lifted);
}

/// All numbers times `2^k`.
pub open spec fn lifted_all(x: Seq<Binary32>, k: nat) -> Seq<Binary32> {
    Seq::new(x.len(), |j: int| lifted(x[j], k))
}

/// The terms of a finite sum, and of a finite difference, are finite.
pub proof fn lemma_finite_terms(a: Binary32, b: Binary32)
    ensures
        a.plus(b).finite() ==> a.finite() && b.finite(),
        a.minus(b).finite() ==> a.finite() && b.finite(),
{
    assert(b.negated().body() == b.body());
}

/// Halves whose sums and differences are finite are finite.
proof fn lemma_finite_halves(a: Seq<Binary32>, b: Seq<Binary32>)
    requires
        a.len() == b.len(),
        all_finite(butterfly(a, b)),
    ensures
        all_finite(a),
        all_finite(b),
{
    let h = butterfly(a, b);
    assert forall|j: int| 0 <= j < a.len() implies (#[trigger] a[j]).finite() && b[j].finite() by {
        lemma_finite_terms(a[j], b[j]);
        assert(h[j].finite());
    }
    assert forall|j: int| 0 <= j < b.len() implies (#[trigger] b[j]).finite() by {
        assert(a[j].finite());
    }
}

/// Times `2^k`, the transform of a block is the transform of the block times
/// `2^k`.
proof fn lemma_lifted_hadamard(x: Seq<Binary32>, levels: nat, k: nat)
    requires
        x.len() == pow2(levels),
        all_finite(hadamard(lifted_all(x, k))),
    ensures
        all_finite(lifted_all(x, k)),
        hadamard(lifted_all(x, k)) == lifted_all(hadamard(x), k),
    decreases levels,
{
    lemma2_to64();
    let y = lifted_all(x, k);
    lemma_hadamard_len(x, levels);
    lemma_hadamard_len(y, levels);
    if levels == 0 {
        assert(hadamard(y) =~= y);
    } else {
        let l = (levels - 1) as nat;
        lemma_pow2_unfold(levels);
        lemma_pow2_pos(l);
        let n = x.len() as int;
        let half = n / 2;
        let (x1, x2) = (x.subrange(0, half), x.subrange(half, n));
        let (y1, y2) = (y.subrange(0, half), y.subrange(half, n));
        assert(y1 =~= lifted_all(x1, k));
        assert(y2 =~= lifted_all(x2, k));
        lemma_hadamard_len(x1, l);
        lemma_hadamard_len(x2, l);
        lemma_hadamard_len(y1, l);
        lemma_hadamard_len(y2, l);
        let (a, b, h) = (hadamard(y1), hadamard(y2), hadamard(y));
        lemma_finite_halves(a, b);
        lemma_lifted_hadamard(x1, l, k);
        lemma_lifted_hadamard(x2, l, k);
        let (p, q) = (hadamard(x1), hadamard(x2));
        let t = lifted_all(hadamard(x), k);
        assert forall|j: int| 0 <= j < n implies #[trigger] h[j] == t[j] by {
            assert(h[j].finite());
            if j < half {
                lemma_lifted_sum(p[j], q[j], k);
            } else {
                lemma_lifted_difference(p[j - half], q[j - half], k);
            }
        }
        assert(h =~= t);
        assert forall|j: int| 0 <= j < n implies (#[trigger] y[j]).finite() by {
            if j < half {
                assert(y1[j] == y[j]);
            } else {
                assert(y2[j - half] == y[j]);
            }
        }
    }
}

/// All numbers of a vector are scalable.
pub open spec fn all_scalable(x: Seq<Binary32>) -> bool {
    forall|j: int| 0 <= j < x.len() ==> scalable(#[trigger] x[j])
}

/// Times `2^k`, the scaled block is the scaled block of the numbers times
/// `2^k`.
proof fn lemma_lifted_scaled(x: Seq<Binary32>, e: nat, k: nat)
    requires
        e == 3 || e == 4,
        all_scalable(x),
        all_finite(scaled(lifted_all(x, k), Binary32::half_pow(e))),
    ensures
        all_finite(lifted_all(x, k)),
        scaled(lifted_all(x, k), Binary32::half_pow(e)) == lifted_all(
            scaled(x, Binary32::half_pow(e)),
            k,
        ),
{
    lemma_factor_parts(e);
    let y = lifted_all(x, k);
    let s = scaled(y, Binary32::half_pow(e));
    assert forall|j: int| 0 <= j < x.len() implies (#[trigger] y[j]).finite() by {
        assert(s[j].finite());
    }
    assert forall|j: int| 0 <= j < x.len() implies #[trigger] s[j] == lifted(
        Binary32::half_pow(e).times(x[j]),
        k,
    ) by {
        assert(y[j].finite());
        assert(scalable(x[j]));
        lemma_lifted_divided(x[j], e, k);
    }
    assert(s =~= lifted_all(scaled(x, Binary32::half_pow(e)), k));
}

/// Times `2^k`, the block transform is that of the numbers times `2^k`.
proof fn lemma_lifted_blockwise(x: Seq<Binary32>, k: nat)
    requires
        x.len() % 64 == 0,
        all_scalable(x),
        all_finite(blockwise(lifted_all(x, k))),
    ensures
        all_finite(lifted_all(x, k)),
        blockwise(lifted_all(x, k)) == lifted_all(blockwise(x), k),
    decreases x.len(),
{
    lemma2_to64();
    let y = lifted_all(x, k);
    let n = x.len() as int;
    if n >= 64 {
        let (c, e, levels): (int, nat, nat) = if n >= 256 {
            (256, 4, 8)
        } else {
            (64, 3, 6)
        };
        let (x1, x2) = (x.subrange(0, c), x.subrange(c, n));
        let (y1, y2) = (y.subrange(0, c), y.subrange(c, n));
        assert(y1 =~= lifted_all(x1, k));
        assert(y2 =~= lifted_all(x2, k));
        assert(all_scalable(x1) && all_scalable(x2));
        let (b1, b2) = (normalized(y1, e), blockwise(y2));
        let f = Binary32::half_pow(e);
        reveal(normalized);
        lemma_hadamard_len(scaled(y1, f), levels);
        lemma_hadamard_len(scaled(x1, f), levels);
        lemma_blockwise_len(y2);
        lemma_blockwise_len(x2);
        let b = blockwise(y);
        assert(b == b1 + b2);
        assert forall|j: int| 0 <= j < b1.len() implies (#[trigger] b1[j]).finite() by {
            assert(b[j] == b1[j]);
        }
        assert forall|j: int| 0 <= j < b2.len() implies (#[trigger] b2[j]).finite() by {
            assert(b[c + j] == b2[j]);
        }
        lemma_lifted_blockwise(x2, k);
        lemma_lifted_normalized(x1, e, levels, k);
        assert(b =~= lifted_all(blockwise(x), k));
        assert forall|j: int| 0 <= j < n implies (#[trigger] y[j]).finite() by {
            if j < c {
                assert(y1[j] == y[j]);
            } else {
                assert(y2[j - c] == y[j]);
            }
        }
    } else {
        assert(blockwise(y) =~= y);
    }
}

/// Times `2^k`, the normalized transform of a block is that of the numbers
/// times `2^k`.
proof fn lemma_lifted_normalized(x: Seq<Binary32>, e: nat, levels: nat, k: nat)
    requires
        e == 3 || e == 4,
        x.len() == pow2(levels),
        all_scalable(x),
        all_finite(normalized(lifted_all(x, k), e)),
    ensures
        all_finite(lifted_all(x, k)),
        normalized(lifted_all(x, k), e) == lifted_all(normalized(x, e), k),
{
    reveal(normalized);
    let f = Binary32::half_pow(e);
    let (y, sx) = (lifted_all(x, k), scaled(x, f));
    // The scaled block has to be known as a block times `2^k` before the
    // transform can be: the finite result shows that its terms are finite.
    lemma_finite_block(scaled(y, f), levels);
    lemma_lifted_scaled(x, e, k);
    lemma_lifted_hadamard(sx, levels, k);
}

/// A block whose transform is finite is finite.
proof fn lemma_finite_block(y: Seq<Binary32>, levels: nat)
    requires
        y.len() == pow2(levels),
        all_finite(hadamard(y)),
    ensures
        all_finite(y),
    decreases levels,
{
    lemma2_to64();
    lemma_hadamard_len(y, levels);
    if levels == 0 {
        assert(hadamard(y) =~= y);
    } else {
        let l = (levels - 1) as nat;
        lemma_pow2_unfold(levels);
        lemma_pow2_pos(l);
        let n = y.len() as int;
        let half = n / 2;
        let (y1, y2) = (y.subrange(0, half), y.subrange(half, n));
        lemma_hadamard_len(y1, l);
        lemma_hadamard_len(y2, l);
        let (a, b, h) = (hadamard(y1), hadamard(y2), hadamard(y));
        lemma_finite_halves(a, b);
        lemma_finite_block(y1, l);
        lemma_finite_block(y2, l);
        assert forall|j: int| 0 <= j < n implies (#[trigger] y[j]).finite() by {
            if j < half {
                assert(y1[j] == y[j]);
            } else {
                assert(y2[j - half] == y[j]);
            }
        }
    }
}

/// A swap of two elements of a vector of length `len`.
spec fn swap_inside(s: Swap, len: nat) -> bool {
    s.i < len && s.j < len
}

/// Multiplying by the signs does not underflow in a swap step.
pub open spec fn steady_step(x: Seq<Binary32>, s: Swap, signs: Seq<Binary32>) -> bool {
    let (i, j) = (s.i as int, s.j as int);
    steady(signs[i], x[j]) && steady(signs[j], x[i])
}

/// Multiplying by the signs does not underflow in any of the swaps of a round.
pub open spec fn steady_swaps(x: Seq<Binary32>, swaps: Seq<Swap>, signs: Seq<Binary32>) -> bool
    decreases swaps.len(),
{
    swaps.len() == 0 || {
        let rest = swaps.drop_last();
        &&& steady_swaps(x, rest, signs)
        &&& steady_step(swap_pass(x, rest, signs), swaps.last(), signs)
    }
}

/// Times `2^k`, a swap step is that of the numbers times `2^k`.
proof fn lemma_lifted_swap_step(x: Seq<Binary32>, s: Swap, signs: Seq<Binary32>, k: nat)
    requires
        swap_inside(s, x.len()),
        steady_step(x, s, signs),
        all_finite(swap_step(lifted_all(x, k), s, signs)),
    ensures
        all_finite(lifted_all(x, k)),
        swap_step(lifted_all(x, k), s, signs) == lifted_all(swap_step(x, s, signs), k),
{
    let (i, j) = (s.i as int, s.j as int);
    let y = lifted_all(x, k);
    let t = swap_step(y, s, signs);
    assert(t[i].finite() && t[j].finite());
    lemma_lifted_signed(signs[j], x[i], k);
    if i != j {
        lemma_lifted_signed(signs[i], x[j], k);
    }
    assert forall|l: int| 0 <= l < x.len() implies (#[trigger] y[l]).finite() by {
        assert(t[l].finite());
    }
    assert(t =~= lifted_all(swap_step(x, s, signs), k));
}

/// Times `2^k`, the swaps of a round are those of the numbers times `2^k`.
proof fn lemma_lifted_swap_pass(x: Seq<Binary32>, swaps: Seq<Swap>, signs: Seq<Binary32>, k: nat)
    requires
        forall|l: int| 0 <= l < swaps.len() ==> swap_inside(#[trigger] swaps[l], x.len()),
        steady_swaps(x, swaps, signs),
        all_finite(swap_pass(lifted_all(x, k), swaps, signs)),
    ensures
        all_finite(lifted_all(x, k)),
        swap_pass(x, swaps, signs).len() == x.len(),
        swap_pass(lifted_all(x, k), swaps, signs) == lifted_all(swap_pass(x, swaps, signs), k),
    decreases swaps.len(),
{
    if swaps.len() > 0 {
        let (rest, s) = (swaps.drop_last(), swaps.last());
        assert(swap_inside(swaps[swaps.len() - 1], x.len()));
        assert forall|l: int| 0 <= l < rest.len() implies swap_inside(
            #[trigger] rest[l],
            x.len(),
        ) by {
            assert(swaps[l] == rest[l]);
        }
        lemma_swapped_finite(lifted_all(x, k), rest, s, signs);
        lemma_lifted_swap_pass(x, rest, signs, k);
        lemma_lifted_swap_step(swap_pass(x, rest, signs), s, signs, k);
    }
}

/// Numbers that are finite after a swap step are finite before it.
proof fn lemma_swapped_finite(x: Seq<Binary32>, rest: Seq<Swap>, s: Swap, signs: Seq<Binary32>)
    requires
        forall|l: int| 0 <= l < rest.len() ==> swap_inside(#[trigger] rest[l], x.len()),
        swap_inside(s, x.len()),
        all_finite(swap_step(swap_pass(x, rest, signs), s, signs)),
    ensures
        swap_pass(x, rest, signs).len() == x.len(),
        all_finite(swap_pass(x, rest, signs)),
{
    assert forall|l: int| 0 <= l < rest.len() implies (#[trigger] rest[l]).i < x.len() && rest[l].j
        < x.len() by {
        assert(swap_inside(rest[l], x.len()));
    }
    lemma_swap_pass_len(x, rest, signs);
    let y = swap_pass(x, rest, signs);
    let t = swap_step(y, s, signs);
    let (i, j) = (s.i as int, s.j as int);
    assert(t[i].finite() && t[j].finite());
    lemma_finite_factors(signs[j], y[i]);
    if i != j {
        lemma_finite_factors(signs[i], y[j]);
    }
    assert forall|l: int| 0 <= l < y.len() implies (#[trigger] y[l]).finite() by {
        assert(t[l].finite());
    }
}

/// Numbers that are finite after the swaps of a round are finite before them.
proof fn lemma_finite_swaps(x: Seq<Binary32>, swaps: Seq<Swap>, signs: Seq<Binary32>)
    requires
        forall|l: int| 0 <= l < swaps.len() ==> swap_inside(#[trigger] swaps[l], x.len()),
        all_finite(swap_pass(x, swaps, signs)),
    ensures
        all_finite(x),
    decreases swaps.len(),
{
    if swaps.len() > 0 {
        let (rest, s) = (swaps.drop_last(), swaps.last());
        assert(swap_inside(swaps[swaps.len() - 1], x.len()));
        assert forall|l: int| 0 <= l < rest.len() implies swap_inside(
            #[trigger] rest[l],
            x.len(),
        ) by {
            assert(swaps[l] == rest[l]);
        }
        lemma_swapped_finite(x, rest, s, signs);
        lemma_finite_swaps(x, rest, signs);
    }
}

/// Numbers whose block transform is finite are finite.
proof fn lemma_finite_blocks(x: Seq<Binary32>)
    requires
        x.len() % 64 == 0,
        all_finite(blockwise(x)),
    ensures
        all_finite(x),
    decreases x.len(),
{
    lemma2_to64();
    let n = x.len() as int;
    if n >= 64 {
        let (c, e, levels): (int, nat, nat) = if n >= 256 {
            (256, 4, 8)
        } else {
            (64, 3, 6)
        };
        let (x1, x2) = (x.subrange(0, c), x.subrange(c, n));
        let f = Binary32::half_pow(e);
        let s = scaled(x1, f);
        let (b1, b2, b) = (normalized(x1, e), blockwise(x2), blockwise(x));
        reveal(normalized);
        lemma_hadamard_len(s, levels);
        lemma_blockwise_len(x2);
        assert(b == b1 + b2);
        assert forall|j: int| 0 <= j < b1.len() implies (#[trigger] b1[j]).finite() by {
            assert(b[j] == b1[j]);
        }
        assert forall|j: int| 0 <= j < b2.len() implies (#[trigger] b2[j]).finite() by {
            assert(b[c + j] == b2[j]);
        }
        lemma_finite_block(s, levels);
        lemma_finite_blocks(x2);
        lemma_factor_parts(e);
        assert forall|j: int| 0 <= j < n implies (#[trigger] x[j]).finite() by {
            if j < c {
                assert(s[j].finite());
            } else {
                assert(x2[j - c] == x[j]);
            }
        }
    }
}

/// No round of the rotation of `x` underflows: neither multiplying by the signs
/// does, and all numbers that the round divides by 8 or 16 are scalable.
pub open spec fn calm(m: RotationModel<Binary32>, x: Seq<Binary32>, rounds: nat) -> bool {
    forall|r: int|
        0 <= r < rounds ==> {
            let f = m.forward(x, r as nat);
            &&& steady_swaps(f, #[trigger] m.swaps[r], m.signs[r])
            &&& all_scalable(swap_pass(f, m.swaps[r], m.signs[r]))
        }
}

/// Multiplying by one or minus one never underflows.
proof fn lemma_steady_sign(s: Binary32, a: Binary32)
    requires
        is_sign(s),
    ensures
        steady(s, a),
{
    lemma2_to64();
    lemma_pow2_adds(23, 126);
    assert(s.body() == 0x3f80_0000);
    assert(body_magnitude(0x3f80_0000) == 0x80_0000 * pow2(126));
    lemma_pow2_pos(149);
    let (m, u) = (a.magnitude() as int, pow2(149) as int);
    assert(s.magnitude() == u);
    vstd::arithmetic::div_mod::lemma_mod_multiples_basic(m, u);
    assert(u * m == m * u) by (nonlinear_arith);
}

/// Swaps whose signs are one or minus one never underflow.
proof fn lemma_steady_signs(x: Seq<Binary32>, swaps: Seq<Swap>, signs: Seq<Binary32>, len: nat)
    requires
        swaps_fit(swaps, signs, len),
    ensures
        steady_swaps(x, swaps, signs),
    decreases swaps.len(),
{
    if swaps.len() > 0 {
        let (rest, s) = (swaps.drop_last(), swaps.last());
        assert(swaps[swaps.len() - 1] == s);
        lemma_steady_signs(x, rest, signs, len);
        let y = swap_pass(x, rest, signs);
        lemma_steady_sign(signs[s.i as int], y[s.j as int]);
        lemma_steady_sign(signs[s.j as int], y[s.i as int]);
    }
}

/// Where all signs are one or minus one, a rotation does not underflow unless
/// dividing a number by 8 or 16 does.
pub proof fn law_plain_calm(m: RotationModel<Binary32>, x: Seq<Binary32>, rounds: nat)
    requires
        plain_rotation(m, x.len()),
        rounds <= m.rounds,
        forall|r: int|
            0 <= r < rounds ==> all_scalable(
                swap_pass(m.forward(x, r as nat), #[trigger] m.swaps[r], m.signs[r]),
            ),
    ensures
        calm(m, x, rounds),
{
    assert forall|r: int| 0 <= r < rounds implies steady_swaps(
        m.forward(x, r as nat),
        #[trigger] m.swaps[r],
        m.signs[r],
    ) by {
        lemma_plain_round(m, x.len(), r);
        lemma_steady_signs(m.forward(x, r as nat), m.swaps[r], m.signs[r], x.len());
    }
}

/// Times `2^k`, the first rounds are those of the numbers times `2^k`.
proof fn lemma_lifted_forward(
    m: RotationModel<Binary32>,
    x: Seq<Binary32>,
    rounds: nat,
    k: nat,
)
    requires
        m.applies_to(x.len()),
        rounds <= m.rounds,
        calm(m, x, rounds),
        all_finite(m.forward(lifted_all(x, k), rounds)),
    ensures
        all_finite(lifted_all(x, k)),
        m.forward(lifted_all(x, k), rounds) == lifted_all(m.forward(x, rounds), k),
    decreases rounds,
{
    if rounds > 0 {
        let r = (rounds - 1) as nat;
        let (swaps, signs) = (m.swaps[r as int], m.signs[r as int]);
        let y = lifted_all(x, k);
        let (fx, fy) = (m.forward(x, r), m.forward(y, r));
        lemma_forward_len(m, x, r);
        lemma_forward_len(m, y, r);
        assert forall|l: int| 0 <= l < swaps.len() implies swap_inside(
            #[trigger] swaps[l],
            x.len(),
        ) by {
            assert(m.swaps[r as int][l] == swaps[l]);
        }
        lemma_swap_pass_len(fy, swaps, signs);
        lemma_swap_pass_len(fx, swaps, signs);
        let (sx, sy) = (swap_pass(fx, swaps, signs), swap_pass(fy, swaps, signs));
        assert(steady_swaps(fx, m.swaps[r as int], signs) && all_scalable(sx));
        lemma_finite_blocks(sy);
        lemma_finite_swaps(fy, swaps, signs);
        lemma_lifted_forward(m, x, r, k);
        lemma_lifted_swap_pass(fx, swaps, signs, k);
        lemma_lifted_blockwise(sx, k);
    }
}

/// Zero times `2^k`.
proof fn lemma_lifted_zero(k: nat)
    ensures
        lifted(Binary32::of_nat(0), k) == Binary32::of_nat(0),
        Binary32::of_nat(0) == (Binary32 { bits: 0 }),
{
    reveal(lifted);
    assert(0 * pow2(149) == 0);
    law_rounding_exact(0);
    assert(pow2(k) * 0 == 0);
}

/// Padding a vector times `2^k`.
proof fn lemma_lifted_padded(x: Seq<Binary32>, dim: nat, k: nat)
    ensures
        padded(lifted_all(x, k), dim) == lifted_all(padded(x, dim), k),
        cut(lifted_all(x, k), dim) == lifted_all(cut(x, dim), k),
{
    lemma_lifted_zero(k);
    assert(padded(lifted_all(x, k), dim) =~= lifted_all(padded(x, dim), k));
    assert(cut(lifted_all(x, k), dim) =~= lifted_all(cut(x, dim), k));
}

/// The computed rotation of a vector times `2^k` is the computed rotation of
/// the vector, times `2^k`: nothing is rounded otherwise, unless a round of the
/// vector underflows or the result overflows. The signs may be any numbers.
pub proof fn law_scaled_rotation(m: RotationModel<Binary32>, x: Seq<Binary32>, k: nat)
    requires
        m.applies_to(m.dim),
        calm(m, padded(x, m.dim), m.rounds),
        all_finite(m.rotated(lifted_all(x, k))),
    ensures
        m.rotated(lifted_all(x, k)) == lifted_all(m.rotated(x), k),
{
    lemma_lifted_padded(x, m.dim, k);
    lemma_lifted_forward(m, padded(x, m.dim), m.rounds, k);
}

/// Multiplying by `2^k` keeps the order.
proof fn lemma_lifted_order(a: Binary32, b: Binary32, k: nat)
    requires
        lifted(a, k).finite(),
        lifted(b, k).finite(),
    ensures
        a.finite(),
        b.finite(),
        a.below(b) == lifted(a, k).below(lifted(b, k)),
{
    lemma_lifted(a, k);
    lemma_lifted(b, k);
    lemma_pow2_pos(k);
    let (x, y, p) = (a.units(), b.units(), pow2(k));
    law_key_order(a, b);
    law_key_order(lifted(a, k), lifted(b, k));
    assert(x < y <==> p * x < p * y) by (nonlinear_arith)
        requires
            p > 0,
    ;
}

/// Times `2^k`, the least and the greatest number are those of the numbers
/// times `2^k`.
proof fn lemma_lifted_extremes(x: Seq<Binary32>, n: nat, k: nat)
    requires
        all_finite(lifted_all(x, k)),
        0 < n <= x.len(),
    ensures
        least(lifted_all(x, k), n) == lifted(least(x, n), k),
        greatest(lifted_all(x, k), n) == lifted(greatest(x, n), k),
        lifted(least(x, n), k).finite(),
        lifted(greatest(x, n), k).finite(),
    decreases n,
{
    let y = lifted_all(x, k);
    let j = (n - 1) as nat;
    assert(y[j as int].finite());
    lemma_lifted(x[j as int], k);
    if j == 0 {
        assert(least(x, 0) == Binary32 { bits: INFINITY_BITS });
        assert(least(y, 0) == Binary32 { bits: INFINITY_BITS });
        assert(greatest(x, 0) == Binary32 { bits: NEG_INFINITY_BITS });
        assert(greatest(y, 0) == Binary32 { bits: NEG_INFINITY_BITS });
    } else {
        lemma_lifted_extremes(x, j, k);
        lemma_lifted_order(x[j as int], least(x, j), k);
        lemma_lifted_order(greatest(x, j), x[j as int], k);
    }
}

/// Rounding twice a quotient that is a normal number is rounding twice the
/// rounded quotient.
proof fn lemma_double_quotient(n: nat, den: nat)
    requires
        den > 0,
        n >= den * 0x80_0000,
        round_body(2 * n, den) < INFINITY_BODY,
    ensures
        round_body(n, den) < INFINITY_BODY,
        round_body(n, den) >= 0x80_0000,
        round_body(2 * body_magnitude(round_body(n, den)), 1) == round_body(2 * n, den),
{
    assert(n * den <= (2 * n) * den) by (nonlinear_arith);
    law_rounding_monotone(n, den, 2 * n, den);
    lemma2_to64();
    lemma_body_scaled(n, den, 2);
    assert(n * 2 == 2 * n && den * 2 == 2 * den);
    assert(unbounded_body(2 * n, den) == 0x80_0000 + unbounded_body(2 * n, 2 * den));
    let b = unbounded_body(n, den);
    lemma_normal_quotient(n, den);
    let e = (b / 0x80_0000 - 1) as nat;
    let d = b + 0x80_0000;
    assert(d / 0x80_0000 == e + 2 && d % 0x80_0000 == b % 0x80_0000);
    lemma_pow2_unfold(e + 1);
    let (s, p) = (0x80_0000 + b % 0x80_0000, pow2(e));
    assert(s * (2 * p) == 2 * (s * p)) by (nonlinear_arith);
    law_rounding_exact(d);
}

/// A quotient of at least `2^23` units is rounded to a normal number.
proof fn lemma_normal_quotient(n: nat, den: nat)
    requires
        den > 0,
        n >= den * 0x80_0000,
    ensures
        round_body(n, den) >= 0x80_0000,
        unbounded_body(n, den) >= 0x80_0000,
{
    lemma2_to64();
    assert(body_magnitude(0x80_0000) == 0x80_0000 * pow2(0));
    law_rounding_exact(0x80_0000);
    law_rounding_monotone(0x80_0000, 1, n, den);
}

/// Rounding `2^k` times a quotient that is a normal number is rounding `2^k`
/// times the rounded quotient.
proof fn lemma_lifted_quotient(n: nat, den: nat, k: nat)
    requires
        den > 0,
        n >= den * 0x80_0000,
        round_body(pow2(k) * n, den) < INFINITY_BODY,
    ensures
        round_body(n, den) < INFINITY_BODY,
        round_body(pow2(k) * body_magnitude(round_body(n, den)), 1) == round_body(
            pow2(k) * n,
            den,
        ),
    decreases k,
{
    lemma2_to64();
    let m = body_magnitude(round_body(n, den));
    if k == 0 {
        assert(1 * n == n && 1 * m == m);
        law_rounding_exact(round_body(n, den));
    } else {
        let j = (k - 1) as nat;
        lemma_pow2_unfold(k);
        lemma_pow2_pos(j);
        let p = pow2(j);
        assert((2 * p) * n == 2 * (p * n) && (2 * p) * m == 2 * (p * m)) by (nonlinear_arith);
        assert(p * n >= n) by (nonlinear_arith)
            requires
                p >= 1,
        ;
        lemma_double_quotient(p * n, den);
        lemma_lifted_quotient(n, den, j);
        lemma_lifted_exact(round_body(n, den), j);
    }
}

/// Times `2^k`, the step of a range is the step of the range times `2^k`.
proof fn lemma_lifted_step(range: Binary32, bits: Bits, k: nat)
    requires
        lifted(range, k).finite(),
        range.magnitude() >= bits.top() * 0x80_0000,
        !range.negative(),
    ensures
        ({
            let (top, lift) = (Binary32::of_nat(bits.top()), lifted(range, k));
            let (step, other) = (range.over(top), lift.over(top));
            &&& other == lifted(step, k)
            &&& other.finite()
            &&& step.finite()
            &&& step.body() >= 0x80_0000
            &&& !step.negative()
        }),
{
    lemma_constants();
    lemma_lifted(range, k);
    let (r, top, v, p) = (range.magnitude(), bits.top(), pow2(149), pow2(k));
    let lift = lifted(range, k);
    lemma_pow2_pos(149);
    lemma_body_scaled(r, top, v);
    lemma_body_scaled(p * r, top, v);
    assert((p * r) * 1 <= (p * r) * top) by (nonlinear_arith)
        requires
            top >= 1,
    ;
    law_rounding_monotone(p * r, top, p * r, 1);
    law_rounding_exact(lift.body());
    lemma_lifted_quotient(r, top, k);
    lemma_normal_quotient(r, top);
    let step = range.over(Binary32::of_nat(top));
    assert(step == compose(false, round_body(r, top)));
    assert(lift.over(Binary32::of_nat(top)) == compose(false, round_body(p * r, top)));
    reveal(lifted);
}

/// The level of a coordinate does not change where coordinate, offset and step
/// are multiplied by `2^k`.
proof fn lemma_lifted_level(v: Binary32, lower: Binary32, step: Binary32, k: nat)
    requires
        lifted(v, k).minus(lifted(lower, k)).finite(),
        lifted(step, k).finite(),
        !step.is_zero(),
    ensures
        level(lifted(v, k), lifted(lower, k), lifted(step, k)) == level(v, lower, step),
{
    lemma_lifted_difference(v, lower, k);
    let d = v.minus(lower);
    lemma_lifted(d, k);
    lemma_lifted(step, k);
    let (m, s, u, p) = (d.magnitude(), step.magnitude(), pow2(149), pow2(k));
    lemma_pow2_pos(k);
    lemma_body_order(0, step.body());
    lemma_body_scaled(m * u, s, p);
    assert((m * u) * p == (p * m) * u && s * p == p * s) by (nonlinear_arith);
    assert(lifted(d, k).over(lifted(step, k)) == d.over(step));
    reveal(level);
}

/// Rounding `2^k` times a product of magnitudes that is a normal number, or a
/// whole number of units.
proof fn lemma_lifted_product(n: nat, k: nat)
    requires
        n >= pow2(149) * 0x80_0000 || n % pow2(149) == 0,
        round_body(pow2(k) * n, pow2(149)) < INFINITY_BODY,
    ensures
        round_body(n, pow2(149)) < INFINITY_BODY,
        round_body(pow2(k) * body_magnitude(round_body(n, pow2(149))), 1) == round_body(
            pow2(k) * n,
            pow2(149),
        ),
{
    let (u, p) = (pow2(149), pow2(k));
    lemma_pow2_pos(149);
    if n >= u * 0x80_0000 {
        lemma_lifted_quotient(n, u, k);
    } else {
        let q = n / u;
        vstd::arithmetic::div_mod::lemma_fundamental_div_mod(n as int, u as int);
        assert(n == q * u && p * n == (p * q) * u && 1 * u == u) by (nonlinear_arith)
            requires
                n == u * q + 0,
        ;
        lemma_body_scaled(q, 1, u);
        lemma_body_scaled(p * q, 1, u);
        lemma_lifted_rounding(q, k);
    }
}

/// The square of a number times `2^k` is its square times `2^(2k)`.
proof fn lemma_lifted_square(a: Binary32, k: nat)
    requires
        steady(a, a),
        lifted(a, k).times(lifted(a, k)).finite(),
    ensures
        lifted(a, k).times(lifted(a, k)) == lifted(a.times(a), 2 * k),
{
    let b = lifted(a, k);
    assert(b.finite());
    lemma_lifted(a, k);
    lemma_pow2_adds(k, k);
    let (m, p) = (a.magnitude(), pow2(k));
    let n = m * m;
    assert((p * m) * (p * m) == (p * p) * n) by (nonlinear_arith)
        requires
            n == m * m,
    ;
    lemma_lifted_product(n, 2 * k);
    let c = a.times(a);
    assert(c == compose(false, round_body(n, pow2(149))));
    assert(c.body() == round_body(n, pow2(149)) && !c.negative());
    reveal(lifted);
}

/// The sum of the squares of numbers times `2^k` is the sum of their squares
/// times `2^(2k)`.
proof fn lemma_lifted_dot(x: Seq<Binary32>, n: nat, k: nat)
    requires
        n <= x.len(),
        forall|j: int| 0 <= j < x.len() ==> steady(#[trigger] x[j], x[j]),
        dot_upto(lifted_all(x, k), lifted_all(x, k), n).finite(),
    ensures
        dot_upto(lifted_all(x, k), lifted_all(x, k), n) == lifted(dot_upto(x, x, n), 2 * k),
    decreases n,
{
    if n == 0 {
        lemma_lifted_zero(2 * k);
    } else {
        let j = (n - 1) as nat;
        let y = lifted_all(x, k);
        let (a, b) = (x[j as int], y[j as int]);
        lemma_finite_terms(dot_upto(y, y, j), b.times(b));
        lemma_lifted_dot(x, j, k);
        assert(steady(a, a));
        lemma_lifted_square(a, k);
        lemma_lifted_sum(dot_upto(x, x, j), a.times(a), 2 * k);
    }
}

/// Natural numbers above zero are rounded to at least one.
proof fn lemma_at_least_one(n: nat)
    requires
        n > 0,
        Binary32::of_nat(n).finite(),
    ensures
        !Binary32::of_nat(n).negative(),
        Binary32::of_nat(n).magnitude() >= pow2(149),
{
    let u = pow2(149);
    let one = Binary32 { bits: ONE_BITS };
    lemma2_to64();
    lemma_pow2_adds(23, 126);
    assert(one.body() == 0x3f80_0000);
    assert(body_magnitude(0x3f80_0000) == 0x80_0000 * pow2(126));
    law_rounding_exact(0x3f80_0000);
    assert(u <= n * u) by (nonlinear_arith)
        requires
            n > 0,
    ;
    law_rounding_monotone(u, 1, n * u, 1);
    let b = round_body(n * u, 1);
    if b > 0x3f80_0000 {
        lemma_body_order(0x3f80_0000, b);
    }
}

/// Times `2^k`, a normal step times a natural number is the step times `2^k`
/// times that number.
proof fn lemma_lifted_total(step: Binary32, total: nat, k: nat)
    requires
        step.finite(),
        step.body() >= 0x80_0000,
        !step.negative(),
        lifted(step, k).times(Binary32::of_nat(total)).finite(),
    ensures
        lifted(step, k).times(Binary32::of_nat(total)) == lifted(
            step.times(Binary32::of_nat(total)),
            k,
        ),
{
    let (b, t) = (lifted(step, k), Binary32::of_nat(total));
    assert(!b.nan() && !t.nan());
    lemma_normal_number(step);
    if total == 0 {
        lemma_lifted_zero(k);
        reveal(lifted);
        assert(b.finite());
        lemma_lifted(step, k);
        assert(step.magnitude() * 0 == 0 && b.magnitude() * 0 == 0);
        lemma_pow2_pos(149);
        lemma_round_nothing(pow2(149));
        assert(b.times(t) == t && step.times(t) == t);
    } else {
        reveal(lifted);
        if t.infinite() {
            assert(b.times(t).infinite());
        }
        lemma_at_least_one(total);
        lemma_pow2_pos(149);
        if b.infinite() {
            lemma_body_order(0, t.body());
            assert(b.times(t).infinite());
        }
        lemma_lifted(step, k);
        let (s, n, p, u) = (step.magnitude(), t.magnitude(), pow2(k), pow2(149));
        assert((p * s) * n == p * (s * n)) by (nonlinear_arith);
        assert(s * n >= u * 0x80_0000) by (nonlinear_arith)
            requires
                s >= 0x80_0000,
                n >= u,
                u > 0,
        ;
        lemma_lifted_product(s * n, k);
        let c = step.times(t);
        assert(c == compose(false, round_body(s * n, u)));
        assert(c.body() == round_body(s * n, u) && !c.negative());
    }
}

/// The code of a vector times `2^k`, from the code of the vector.
pub open spec fn lifted_code(c: CodeModel<Binary32>, k: nat) -> CodeModel<Binary32> {
    CodeModel {
        lower: lifted(c.lower, k),
        step: lifted(c.step, k),
        code_sum: lifted(c.code_sum, k),
        norm2: lifted(c.norm2, 2 * k),
        bits: c.bits,
        codes: c.codes,
    }
}

/// Encoding `x` does not underflow: neither the rotation nor the step nor the
/// squares of the entries lose bits below the normal numbers.
pub open spec fn no_underflow(m: RotationModel<Binary32>, x: Seq<Binary32>, bits: Bits) -> bool {
    let used = cut(x, m.dim);
    let rx = m.rotated(used);
    &&& calm(m, padded(used, m.dim), m.rounds)
    &&& greatest(rx, rx.len()).minus(offset_of(rx)).magnitude() >= bits.top() * 0x80_0000
    &&& forall|j: int| 0 <= j < used.len() ==> steady(#[trigger] used[j], used[j])
}

/// Encoding `x` does not overflow.
pub open spec fn no_overflow(m: RotationModel<Binary32>, x: Seq<Binary32>, bits: Bits) -> bool {
    let rx = m.rotated(cut(x, m.dim));
    &&& all_finite(rx)
    &&& greatest(rx, rx.len()).minus(offset_of(rx)).finite()
    &&& encoded(m, x, bits).code_sum.finite()
    &&& encoded(m, x, bits).norm2.finite()
}

/// The range and the step of a rotated vector times `2^k`, and its codes.
proof fn lemma_lifted_codes(rx: Seq<Binary32>, bits: Bits, k: nat)
    requires
        rx.len() > 0,
        all_finite(lifted_all(rx, k)),
        greatest(lifted_all(rx, k), rx.len()).minus(offset_of(lifted_all(rx, k))).finite(),
        greatest(rx, rx.len()).minus(offset_of(rx)).magnitude() >= bits.top() * 0x80_0000,
    ensures
        ({
            let ry = lifted_all(rx, k);
            let (lower, step) = (offset_of(rx), step_of(rx, bits));
            &&& offset_of(ry) == lifted(lower, k)
            &&& step_of(ry, bits) == lifted(step, k)
            &&& step.finite()
            &&& step.body() >= 0x80_0000
            &&& !step.negative()
            &&& lifted(step, k).finite()
            &&& digits_of(ry, offset_of(ry), step_of(ry, bits), bits) == digits_of(
                rx,
                lower,
                step,
                bits,
            )
        }),
{
    let n = rx.len();
    let ry = lifted_all(rx, k);
    lemma_lifted_extremes(rx, n, k);
    let (lower, upper) = (offset_of(rx), greatest(rx, n));
    let (low, up) = (offset_of(ry), greatest(ry, n));
    let range = upper.minus(lower);
    lemma_lifted_difference(upper, lower, k);
    lemma_least(rx, n);
    lemma_greatest(rx, n);
    lemma_least(ry, n);
    lemma_greatest(ry, n);
    assert(ry[0].finite());
    lemma_lifted(rx[0], k);
    lemma_difference(upper, lower);
    assert(!range.is_zero());
    lemma_lifted_step(range, bits, k);
    reveal(step_of);
    let step = step_of(rx, bits);
    assert(low.finite() && up.finite());
    lemma_difference(up, low);
    assert forall|j: int| 0 <= j < n implies #[trigger] level(ry[j], low, lifted(step, k))
        == level(rx[j], lower, step) by {
        assert(ry[j].finite());
        lemma_difference(ry[j], low);
        law_key_order(ry[j], up);
        law_rounding_monotone(
            (ry[j].units() - low.units()) as nat,
            1,
            (up.units() - low.units()) as nat,
            1,
        );
        lemma_lifted_level(rx[j], lower, step, k);
    }
    let (dx, dy) = (digits_of(rx, lower, step, bits), digits_of(ry, low, lifted(step, k), bits));
    assert forall|j: int| 0 <= j < n implies #[trigger] dy[j] == dx[j] by {
        assert(level(ry[j], low, lifted(step, k)) == level(rx[j], lower, step));
    }
    assert(dy =~= dx);
}

/// A vector whose step is a normal number has a code of its own.
proof fn lemma_proper_code(m: RotationModel<Binary32>, x: Seq<Binary32>, bits: Bits)
    requires
        x.len() > 0,
        ({
            let step = step_of(m.rotated(cut(x, m.dim)), bits);
            step.finite() && !step.negative() && !step.is_zero()
        }),
    ensures
        ({
            let used = cut(x, m.dim);
            let rx = m.rotated(used);
            encoded(m, x, bits) == quantized(
                rx,
                offset_of(rx),
                step_of(rx, bits),
                dot_upto(used, used, used.len()),
                bits,
            )
        }),
{
    assert(!degenerate(m, x, bits));
}

/// The code of a quantized vector times `2^k`.
proof fn lemma_lifted_quantized(
    rx: Seq<Binary32>,
    ry: Seq<Binary32>,
    lower: Binary32,
    step: Binary32,
    norms: (Binary32, Binary32),
    bits: Bits,
    k: nat,
)
    requires
        step.finite(),
        step.body() >= 0x80_0000,
        !step.negative(),
        digits_of(ry, lifted(lower, k), lifted(step, k), bits) == digits_of(rx, lower, step, bits),
        norms.1 == lifted(norms.0, 2 * k),
        quantized(ry, lifted(lower, k), lifted(step, k), norms.1, bits).code_sum.finite(),
    ensures
        quantized(ry, lifted(lower, k), lifted(step, k), norms.1, bits) == lifted_code(
            quantized(rx, lower, step, norms.0, bits),
            k,
        ),
{
    let d = digits_of(rx, lower, step, bits);
    lemma_lifted_total(step, stored_total(d, bits), k);
}

/// The code of a vector times `2^k` has the codes of the vector's code; offset,
/// step and sum of codes are multiplied by `2^k`, the squared norm by `2^(2k)`.
/// All rounding is the same, unless encoding the vector underflows or encoding
/// the multiple overflows. The signs of the rotation may be any numbers.
pub proof fn law_scaled_code(
    m: RotationModel<Binary32>,
    x: Seq<Binary32>,
    bits: Bits,
    k: nat,
)
    requires
        m.well_formed(),
        m.applies_to(m.dim),
        x.len() > 0,
        no_underflow(m, x, bits),
        no_overflow(m, lifted_all(x, k), bits),
    ensures
        encoded(m, lifted_all(x, k), bits) == lifted_code(encoded(m, x, bits), k),
{
    let y = lifted_all(x, k);
    let used = cut(x, m.dim);
    lemma_lifted_padded(x, m.dim, k);
    law_scaled_rotation(m, used, k);
    let rx = m.rotated(used);
    law_rotated_dimension(m, used);
    let ry = m.rotated(cut(y, m.dim));
    lemma_lifted_codes(rx, bits, k);
    let (lower, step) = (offset_of(rx), step_of(rx, bits));
    lemma_lifted(step, k);
    lemma_proper_code(m, x, bits);
    lemma_proper_code(m, y, bits);
    lemma_lifted_dot(used, used.len(), k);
    let (a, b) = (
        dot_upto(used, used, used.len()),
        dot_upto(lifted_all(used, k), lifted_all(used, k), used.len()),
    );
    lemma_lifted_quantized(rx, ry, lower, step, (a, b), bits, k);
}

/// The transform of 64 numbers with the factor `1/8` is exactly twice that with
/// the factor `1/16`, unless dividing a number underflows or the result
/// overflows.
pub proof fn law_half_transform(x: Seq<Binary32>)
    requires
        x.len() == 64,
        all_scalable(x),
        all_finite(normalized(x, 3)),
    ensures
        normalized(x, 3) == lifted_all(hadamard(scaled(x, Binary32::half_pow(4))), 1),
{
    lemma2_to64();
    reveal(normalized);
    let (a, b) = (scaled(x, Binary32::half_pow(3)), scaled(x, Binary32::half_pow(4)));
    lemma_finite_block(a, 6);
    lemma_factor_parts(3);
    assert forall|j: int| 0 <= j < x.len() implies #[trigger] a[j] == lifted(b[j], 1) by {
        assert(a[j].finite());
        assert(x[j].finite());
        assert(scalable(x[j]));
        lemma_divided(x[j], 3);
        lemma_divided(x[j], 4);
        law_rounding_exact(a[j].body());
        reveal(lifted);
    }
    assert(a =~= lifted_all(b, 1));
    lemma_lifted_hadamard(b, 6, 1);
}

} // verus!
