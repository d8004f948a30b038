//! How accurate computed rotations and codes are, in plain numbers.
//!
//! Vectors are measured in units of `2^-149`, as in [`drift`](crate::drift), so
//! that the number one is [`one`].

#[allow(unused_imports)]
use crate::algebra::{
    lemma_associate, lemma_commute, lemma_constant_factors, lemma_distribute, lemma_factor_order,
    lemma_multiple, lemma_positive, lemma_scaled_factors, lemma_square, lemma_sums, product,
};
#[allow(unused_imports)]
use crate::arith::Arithmetic;
#[allow(unused_imports)]
use crate::binary32::{
    body_magnitude, compose, lemma_body_order, Binary32, INFINITY_BITS, NEG_INFINITY_BITS,
};
#[allow(unused_imports)]
use crate::code::{digits, Bits, CodeModel};
#[allow(unused_imports)]
use crate::drift::{
    all_finite, law_rotation_drift, law_round_trip_drift, law_unrotation_drift,
    lemma_difference_near, lemma_sum_near, lemma_whole_rounded, magnitude_of, moderate,
    rotation_drift, units_of, weight,
};
#[allow(unused_imports)]
use crate::encoding::{cut, degenerate, encoded, greatest, least, offset_of, step_of};
#[allow(unused_imports)]
use crate::exact::{
    differences, law_rotation_keeps, law_rotation_orthogonal, law_rotation_undone,
    law_unrotated_dimension, signed_rotation, sums,
};
#[allow(unused_imports)]
use crate::fidelity::{
    law_encoded_error, law_restored_error, lemma_restored_value, lemma_small_number,
};
#[allow(unused_imports)]
use crate::laws::{
    exact_rotation, law_code_size, law_rotation_pads, lemma_plain_signed, plain_rotation,
};
#[allow(unused_imports)]
use crate::norms::{
    lemma_bound_as_square, lemma_bounded_norm, lemma_element_bound, lemma_norm, lemma_root_order,
    lemma_sum_of_norms, lemma_weaken, norm2,
};
#[allow(unused_imports)]
use crate::precision::{law_rounding_exact, law_rounding_monotone, law_rounding_relative};
#[allow(unused_imports)]
use crate::recovery::size;
#[allow(unused_imports)]
use crate::rotation::{padded, RotationModel};
#[allow(unused_imports)]
use crate::rounded::{
    law_codes_kept, law_key_order, lemma_constants, lemma_difference, lemma_greatest, lemma_least,
};
#[allow(unused_imports)]
use crate::rounding::{lemma_body_scaled, round_body, INFINITY_BODY};
use vstd::arithmetic::power2::{
    lemma2_to64, lemma_pow2_adds, lemma_pow2_pos, lemma_pow2_strictly_increases, pow2,
};
use vstd::prelude::*;

verus! {

/// The number one, in units.
pub open spec fn one() -> real {
    pow2(149) as real
}

/// A normal number is at least `2^23` units.
pub proof fn lemma_normal_number(a: Binary32)
    requires
        0x80_0000 <= a.body() < INFINITY_BODY,
    ensures
        a.magnitude() >= 0x80_0000,
{
    lemma2_to64();
    assert(body_magnitude(0x80_0000) == 0x80_0000 * pow2(0));
    if a.body() > 0x80_0000 {
        lemma_body_order(0x80_0000, a.body());
    }
}

/// Powers of two above the number one.
pub proof fn lemma_powers()
    ensures
        one() >= 340282366920938463463374607431768211456real,
        pow2(264) as real >= 18446744073709551616real * one(),
        pow2(270) as real == 64real * (pow2(264) as real),
{
    lemma2_to64();
    lemma_pow2_adds(6, 264);
    lemma_pow2_adds(64, 200);
    lemma_pow2_strictly_increases(149, 200);
    lemma_pow2_adds(64, 64);
    lemma_pow2_adds(21, 128);
    lemma_pow2_pos(149);
}

/// The norm of a vector, as a number whose square it is.
pub open spec fn norm_is(a: real, v: Seq<real>) -> bool {
    a >= 0real && product(a, a) == norm2(v)
}

/// A computed rotation keeps the norm: what it loses or adds is at most
/// `rotation_drift` times `w`, where the square of `w` is not below the weight
/// of the vector.
pub proof fn law_norm_kept(
    m: RotationModel<Binary32>,
    x: Seq<Binary32>,
    a: real,
    b: real,
    w: real,
)
    requires
        plain_rotation(m, m.dim),
        m.rounds <= 3000,
        moderate(padded(x, m.dim)),
        norm_is(a, units_of(padded(x, m.dim))),
        norm_is(b, units_of(m.rotated(x))),
        w >= 0real,
        weight(units_of(padded(x, m.dim))) <= product(w, w),
    ensures
        size(a - b) <= product(rotation_drift(m.rounds), w),
{
    law_rotation_drift(m, x);
    let u = units_of(padded(x, m.dim));
    let (e, r) = (exact_rotation(m).rotated(u), units_of(m.rotated(x)));
    let off = differences(r, e);
    let g = rotation_drift(m.rounds);
    lemma_plain_signed(m, m.dim);
    law_rotation_orthogonal(exact_rotation(m), u, u);
    lemma_norm(u);
    lemma_weaken(off, g, weight(u), g, product(w, w));
    lemma_bound_as_square(off, g, w);
    let t = product(g, w);
    lemma_positive(g, w);
    assert(r =~= sums(e, off));
    assert(e =~= differences(r, off));
    lemma_sum_of_norms(e, off, a, t);
    lemma_sum_of_norms(r, off, b, t);
    lemma_root_order(b, a + t);
    lemma_root_order(a, b + t);
}

/// All numbers are at most one in size.
pub open spec fn small_entries(x: Seq<Binary32>) -> bool {
    forall|k: int|
        0 <= k < x.len() ==> (#[trigger] x[k]).finite() && x[k].magnitude() <= pow2(149)
}

/// The weight of a vector whose norm is at most `n`, of at most `2^32` elements.
pub proof fn lemma_weight(u: Seq<real>, n: real)
    requires
        u.len() <= u32::MAX,
        n >= 0real,
        norm2(u) <= product(n, n),
    ensures
        weight(u) <= product(n + 281474976710656real, n + 281474976710656real),
{
    let c = 281474976710656real;
    lemma_sums(n, c, n, c);
    lemma_positive(n, c);
    lemma_commute(n, c);
    lemma_multiple(c, 1real, c);
    lemma_constant_factors(c);
}

/// A vector whose norm is at most `2^115` can be rotated without overflow.
pub proof fn lemma_moderate(x: Seq<Binary32>, n: real)
    requires
        all_finite(x),
        x.len() <= u32::MAX,
        0real <= n <= pow2(264) as real,
        norm2(units_of(x)) <= product(n, n),
    ensures
        moderate(x),
{
    lemma_powers();
    lemma_weight(units_of(x), n);
    let (w, p) = (n + 281474976710656real, pow2(264) as real);
    let q = 2real * p;
    lemma_factor_order(w, w, q);
    lemma_factor_order(q, w, q);
    lemma_scaled_factors(p, q);
    lemma_scaled_factors(p, p);
    lemma_square(p);
    let b = pow2(270) as real;
    lemma_multiple(64real, p, b);
    lemma_commute(p, b);
    lemma_multiple(64real, p, p);
}

/// The norm of a padded vector of entries of at most `v`.
proof fn lemma_padded_norm(x: Seq<Binary32>, dim: nat, v: real, c: real)
    requires
        all_finite(x),
        forall|j: int| 0 <= j < x.len() ==> (#[trigger] x[j]).magnitude() as real <= v,
        x.len() <= dim,
        v >= 0real,
        c >= 0real,
        x.len() as real <= product(c, c),
    ensures
        all_finite(padded(x, dim)),
        norm2(units_of(padded(x, dim))) <= product(product(v, c), product(v, c)),
{
    let p = padded(x, dim);
    let u = units_of(p);
    lemma_zero_units();
    assert forall|k: int| 0 <= k < u.len() implies size(#[trigger] u[k]) <= v && p[k].finite() by {
        if k < x.len() {
            assert(x[k].finite());
            assert(x[k].magnitude() as real <= v);
        }
    }
    assert forall|k: int| x.len() <= k < u.len() implies #[trigger] u[k] == 0real by {}
    assert forall|k: int| 0 <= k < p.len() implies (#[trigger] p[k]).finite() by {
        assert(size(u[k]) <= v);
    }
    lemma_bounded_norm(u, x.len(), v);
    let (vv, cc) = (product(v, v), product(c, c));
    lemma_square(v);
    lemma_factor_order(vv, x.len() as real, cc);
    lemma_commute(vv, cc);
    lemma_square_of_product(v, c);
}

/// Zero as a number.
pub proof fn lemma_zero_units()
    ensures
        Binary32::of_nat(0).finite(),
        Binary32::of_nat(0).units() == 0,
{
    lemma_small_number(0);
    assert(0 * pow2(149) == 0);
}

/// How far a rotation of `rounds` rounds can move a vector whose norm is at most
/// `n`: `rotation_drift` times that norm, and a share for the smallest numbers.
pub open spec fn drifted(n: real, rounds: nat) -> real {
    product(rotation_drift(rounds), n + 281474976710656real)
}

/// Up to 3000 rounds move a vector by little, and up to three by very little.
pub proof fn lemma_drifted(n: real, rounds: nat)
    requires
        n >= 0real,
        rounds <= 3000,
    ensures
        0real <= drifted(n, rounds) <= 147real * (n + 281474976710656real) / 100000real,
        rounds <= 3 ==> drifted(n, rounds) <= 147real * (n + 281474976710656real) / 100000000real,
{
    let (w, g) = (n + 281474976710656real, rotation_drift(rounds));
    let (a, b) = (147real / 100000real, 147real / 100000000real);
    lemma_positive(g, w);
    lemma_factor_order(w, g, a);
    lemma_multiple(a, 1real, w);
    lemma_constant_factors(w);
    if rounds <= 3 {
        lemma_factor_order(w, g, b);
        lemma_multiple(b, 1real, w);
    }
}

/// A computed rotation keeps the norm of up to 400 thousand entries of at most
/// one up to `rotation_drift` times 634, and with at most three rounds to a
/// thousandth.
pub proof fn law_small_norm_kept(
    m: RotationModel<Binary32>,
    x: Seq<Binary32>,
    a: real,
    b: real,
)
    requires
        plain_rotation(m, m.dim),
        m.rounds <= 3000,
        m.dim <= u32::MAX,
        small_entries(x),
        x.len() <= 400_000,
        x.len() <= m.dim,
        norm_is(a, units_of(padded(x, m.dim))),
        norm_is(b, units_of(m.rotated(x))),
    ensures
        size(a - b) <= product(rotation_drift(m.rounds), 634real * one()),
        m.rounds <= 3 ==> 1000real * size(a - b) <= one(),
{
    let p = padded(x, m.dim);
    let (c, v) = (633real, one());
    lemma_powers();
    lemma_multiple(c, 1real, c);
    lemma_constant_factors(c);
    lemma_multiple(c, 1real, v);
    lemma_constant_factors(v);
    lemma_pow2_pos(149);
    lemma_commute(c, v);
    lemma_padded_norm(x, m.dim, v, c);
    let n = product(c, v);
    lemma_moderate(p, n);
    lemma_weight(units_of(p), n);
    let w = n + 281474976710656real;
    law_norm_kept(m, x, a, b, w);
    lemma_drifted(n, m.rounds);
    lemma_factor_order(rotation_drift(m.rounds), w, 634real * v);
}

/// A vector of up to a thousand entries of at most one that is rotated and
/// rotated back, as computed, is off in every entry by at most twice
/// `rotation_drift` times 32, and with at most three rounds by at most one part
/// in ten thousand.
pub proof fn law_small_round_trip(m: RotationModel<Binary32>, x: Seq<Binary32>, k: int)
    requires
        plain_rotation(m, m.dim),
        m.rounds <= 3000,
        m.dim <= u32::MAX,
        small_entries(x),
        x.len() <= 1000,
        x.len() <= m.dim,
        0 <= k < m.dim,
    ensures
        ({
            let back = m.unrotated(m.rotated(x));
            let e = size(back[k].units() as real - padded(x, m.dim)[k].units() as real);
            &&& back.len() == m.dim
            &&& back[k].finite()
            &&& e <= product(2real * rotation_drift(m.rounds), 32real * one())
            &&& m.rounds <= 3 ==> 10000real * e <= one()
        }),
{
    let p = padded(x, m.dim);
    let u = units_of(p);
    let (c, v) = (317real / 10real, one());
    lemma_powers();
    lemma_multiple(c, 1real, c);
    lemma_constant_factors(c);
    lemma_multiple(c, 1real, v);
    lemma_constant_factors(v);
    lemma_pow2_pos(149);
    lemma_commute(c, v);
    lemma_padded_norm(x, m.dim, v, c);
    let n = product(c, v);
    lemma_moderate(p, n);
    lemma_weight(u, n);
    let w = n + 281474976710656real;
    law_round_trip_drift(m, x);
    let back = m.unrotated(m.rotated(x));
    let off = differences(units_of(back), u);
    let g = 2real * rotation_drift(m.rounds);
    lemma_norm(u);
    lemma_weaken(off, g, weight(u), g, product(w, w));
    lemma_bound_as_square(off, g, w);
    lemma_positive(g, w);
    lemma_element_bound(off, product(g, w), k);
    lemma_factor_order(g, w, 32real * v);
    lemma_drifted(n, m.rounds);
    lemma_scaled_factors(rotation_drift(m.rounds), w);
}

/// A bound on the norm, and with it on the coordinates, of a rotated vector
/// whose norm is at most `n`.
pub open spec fn coordinate_bound(n: real, rounds: nat) -> real {
    n + drifted(n, rounds)
}

/// A computed rotation against the exact one, by a bound on the norm.
pub proof fn lemma_rotation_off(m: RotationModel<Binary32>, x: Seq<Binary32>, n: real)
    requires
        plain_rotation(m, m.dim),
        m.rounds <= 3000,
        m.dim <= u32::MAX,
        all_finite(padded(x, m.dim)),
        0real <= n <= pow2(264) as real,
        norm2(units_of(padded(x, m.dim))) <= product(n, n),
    ensures
        ({
            let e = exact_rotation(m).rotated(units_of(padded(x, m.dim)));
            let (off, d) = (differences(units_of(m.rotated(x)), e), drifted(n, m.rounds));
            &&& m.rotated(x).len() == m.dim
            &&& e.len() == m.dim
            &&& all_finite(m.rotated(x))
            &&& norm2(e) <= product(n, n)
            &&& d >= 0real
            &&& norm2(off) <= product(d, d)
        }),
{
    let p = padded(x, m.dim);
    let u = units_of(p);
    lemma_moderate(p, n);
    lemma_weight(u, n);
    let w = n + 281474976710656real;
    law_rotation_drift(m, x);
    let e = exact_rotation(m).rotated(u);
    let off = differences(units_of(m.rotated(x)), e);
    let g = rotation_drift(m.rounds);
    lemma_plain_signed(m, m.dim);
    law_rotation_orthogonal(exact_rotation(m), u, u);
    lemma_norm(u);
    lemma_weaken(off, g, weight(u), g, product(w, w));
    lemma_bound_as_square(off, g, w);
    lemma_drifted(n, m.rounds);
}

/// A vector rotated back, as computed, against the exact result, by a bound on
/// the norm.
pub proof fn lemma_unrotation_off(m: RotationModel<Binary32>, r: Seq<Binary32>, n: real)
    requires
        plain_rotation(m, m.dim),
        m.rounds <= 3000,
        m.dim <= u32::MAX,
        r.len() == m.dim,
        all_finite(r),
        0real <= n <= pow2(264) as real,
        norm2(units_of(r)) <= product(n, n),
    ensures
        ({
            let e = exact_rotation(m).unrotated(units_of(r));
            let (off, d) = (differences(units_of(m.unrotated(r)), e), drifted(n, m.rounds));
            &&& m.unrotated(r).len() == m.dim
            &&& e.len() == m.dim
            &&& all_finite(m.unrotated(r))
            &&& d >= 0real
            &&& norm2(off) <= product(d, d)
        }),
{
    let u = units_of(r);
    lemma_moderate(r, n);
    lemma_weight(u, n);
    let w = n + 281474976710656real;
    law_unrotation_drift(m, r);
    let off = differences(units_of(m.unrotated(r)), exact_rotation(m).unrotated(u));
    let g = rotation_drift(m.rounds);
    lemma_norm(u);
    lemma_weaken(off, g, weight(u), g, product(w, w));
    lemma_bound_as_square(off, g, w);
    lemma_drifted(n, m.rounds);
}

/// The coordinates of a computed rotation.
pub proof fn lemma_rotated_bounded(m: RotationModel<Binary32>, x: Seq<Binary32>, n: real)
    requires
        plain_rotation(m, m.dim),
        m.rounds <= 3000,
        m.dim <= u32::MAX,
        all_finite(padded(x, m.dim)),
        0real <= n <= pow2(264) as real,
        norm2(units_of(padded(x, m.dim))) <= product(n, n),
    ensures
        m.rotated(x).len() == m.dim,
        all_finite(m.rotated(x)),
        ({
            let b = coordinate_bound(n, m.rounds);
            &&& norm2(units_of(m.rotated(x))) <= product(b, b)
            &&& forall|k: int| 0 <= k < m.dim ==> size(#[trigger] units_of(m.rotated(x))[k]) <= b
        }),
{
    lemma_rotation_off(m, x, n);
    let e = exact_rotation(m).rotated(units_of(padded(x, m.dim)));
    let r = units_of(m.rotated(x));
    let off = differences(r, e);
    assert(r =~= sums(e, off));
    let b = coordinate_bound(n, m.rounds);
    lemma_sum_of_norms(e, off, n, drifted(n, m.rounds));
    assert forall|k: int| 0 <= k < m.dim implies size(#[trigger] r[k]) <= b by {
        lemma_element_bound(r, b, k);
    }
}

/// The least and the greatest of finite numbers are bounded as the numbers are.
proof fn lemma_extremes(x: Seq<Binary32>, b: real, n: nat)
    requires
        all_finite(x),
        0 < n <= x.len(),
        forall|k: int| 0 <= k < x.len() ==> size(#[trigger] units_of(x)[k]) <= b,
    ensures
        size(least(x, n).units() as real) <= b,
        size(greatest(x, n).units() as real) <= b,
    decreases n,
{
    let k = n - 1;
    assert(size(units_of(x)[k]) <= b);
    assert(x[k].finite());
    if n > 1 {
        lemma_extremes(x, b, (n - 1) as nat);
    } else {
        assert(least(x, 0) == Binary32 { bits: INFINITY_BITS });
        assert(greatest(x, 0) == Binary32 { bits: NEG_INFINITY_BITS });
    }
}

/// The quotient of a range by the largest code, as it is rounded.
proof fn lemma_step_body(range: Binary32, bits: Bits)
    requires
        range.finite(),
    ensures
        range.over(Binary32::of_nat(bits.top())).body() == round_body(
            range.magnitude(),
            bits.top(),
        ),
        round_body(range.magnitude(), bits.top()) < INFINITY_BODY,
{
    lemma_constants();
    let (r, top, v) = (range.magnitude(), bits.top(), pow2(149));
    lemma_pow2_pos(149);
    lemma_body_scaled(r, top, v);
    assert(r * 1 <= r * top) by (nonlinear_arith)
        requires
            top >= 1,
    ;
    law_rounding_monotone(r, top, r, 1);
    law_rounding_exact(range.body());
}

/// The rounding of the quotient of a range by the largest code.
proof fn lemma_step_part(range: Binary32, bits: Bits)
    requires
        range.finite(),
    ensures
        ({
            let step = range.over(Binary32::of_nat(bits.top()));
            let (r, s) = (range.magnitude() as int, step.magnitude() as int);
            &&& step.finite()
            &&& bits is Four ==> 0x100_0000 * magnitude_of(r - 15 * s) <= r + 0x80_0000 * 15
            &&& bits is Eight ==> 0x100_0000 * magnitude_of(r - 255 * s) <= r + 0x80_0000 * 255
        }),
{
    lemma_step_body(range, bits);
    let (r, top) = (range.magnitude(), bits.top());
    let s = body_magnitude(round_body(r, top));
    law_rounding_relative(r, top);
    match bits {
        Bits::Four => {
            assert(s * top == 15 * s);
        },
        Bits::Eight => {
            assert(s * top == 255 * s);
        },
    }
}

/// What is known of the offset, the range and the step of finite numbers of at
/// most `b`: `t` is the exact range, `r` the rounded one.
pub open spec fn range_parts(rx: Seq<Binary32>, bits: Bits, b: real, t: real, r: real) -> bool {
    let (lower, upper) = (offset_of(rx), greatest(rx, rx.len()));
    let step = step_of(rx, bits);
    let s = step.magnitude() as real;
    &&& lower.finite()
    &&& upper.finite()
    &&& upper.minus(lower).finite()
    &&& step.finite()
    &&& size(lower.units() as real) <= b
    &&& t == upper.units() as real - lower.units() as real
    &&& 0real <= t <= 2real * b
    &&& 16777216real * size(r - t) <= t
    &&& bits is Four ==> 16777216real * size(r - 15real * s) <= r + 125829120real
    &&& bits is Eight ==> 16777216real * size(r - 255real * s) <= r + 2139095040real
}

/// The offset, the range and the step of finite numbers of at most `b`, with
/// the rounding of the range and of the step.
pub proof fn lemma_range_parts(rx: Seq<Binary32>, bits: Bits, b: real) -> (r: (real, real))
    requires
        all_finite(rx),
        rx.len() > 0,
        b <= 2real * (pow2(264) as real),
        forall|k: int| 0 <= k < rx.len() ==> size(#[trigger] units_of(rx)[k]) <= b,
    ensures
        range_parts(rx, bits, b, r.0, r.1),
{
    lemma_powers();
    lemma_extremes(rx, b, rx.len());
    lemma_least(rx, rx.len());
    lemma_greatest(rx, rx.len());
    let (lower, upper) = (offset_of(rx), greatest(rx, rx.len()));
    assert(rx[0].finite());
    lemma_difference(upper, lower);
    let range = upper.minus(lower);
    lemma2_to64();
    lemma_pow2_adds(2, 270);
    lemma_difference_near(upper, lower);
    assert(range.units() == range.magnitude());
    lemma_step_part(range, bits);
    assert(step_of(rx, bits) == range.over(Binary32::of_nat(bits.top()))) by {
        reveal(step_of);
    }
    (upper.units() as real - lower.units() as real, range.magnitude() as real)
}

/// A restored coordinate is finite where offset and range are moderate.
pub proof fn lemma_restored_finite(lower: Binary32, step: Binary32, g: nat)
    requires
        lower.finite(),
        step.finite(),
        !step.negative(),
        g <= 255,
        lower.magnitude() <= pow2(270),
        g * step.magnitude() <= pow2(270),
    ensures
        lower.plus(step.times(Binary32::of_nat(g))).finite(),
{
    lemma_small_number(g);
    let (s, u) = (step.magnitude(), pow2(149));
    lemma_pow2_pos(149);
    let n = s * g;
    assert(s * (g * u) == n * u && n == g * s) by (nonlinear_arith)
        requires
            n == s * g,
    ;
    assert(1 * u == u);
    lemma_body_scaled(n, 1, u);
    let p = step.times(Binary32::of_nat(g));
    assert(p == compose(false, round_body(n, 1)));
    lemma2_to64();
    lemma_pow2_adds(2, 270);
    lemma_whole_rounded(n);
    lemma_sum_near(lower, p);
}

/// A code of a vector whose norm is at most `n`, with what is known of its
/// rotated vector `rx`: the restored coordinate is off from the exact value of
/// its code by two roundings.
#[verifier::rlimit(40)]
pub proof fn lemma_code_parts(
    m: RotationModel<Binary32>,
    x: Seq<Binary32>,
    bits: Bits,
    n: real,
    k: int,
) -> (r: (real, real))
    requires
        m.well_formed(),
        plain_rotation(m, m.dim),
        m.rounds <= 3000,
        m.dim <= u32::MAX,
        all_finite(padded(x, m.dim)),
        !degenerate(m, x, bits),
        0real <= n <= pow2(264) as real,
        norm2(units_of(padded(x, m.dim))) <= product(n, n),
        0 <= k < m.dim,
    ensures
        ({
            let rx = m.rotated(x);
            let c = encoded(m, x, bits);
            let g = digits(bits, c.codes)[k];
            let b = coordinate_bound(n, m.rounds);
            let v = rx[k].units() as real - c.lower.units() as real;
            &&& rx == m.rotated(cut(x, m.dim))
            &&& all_finite(rx)
            &&& range_parts(rx, bits, b, r.0, r.1)
            &&& c.lower == offset_of(rx)
            &&& c.step == step_of(rx, bits)
            &&& c.step.units() > 0
            &&& c.step.units() == c.step.magnitude()
            &&& 0real <= v <= r.0
            &&& g <= bits.top()
            &&& c.restored().len() == m.dim
            &&& c.restored()[k].finite()
            &&& 0x100_0000 * (c.restored()[k].units() - (c.lower.units() + g * c.step.units()))
                <= c.lower.magnitude() + 3 * (g * c.step.units())
            &&& -(0x100_0000 * (c.restored()[k].units() - (c.lower.units() + g * c.step.units())))
                <= c.lower.magnitude() + 3 * (g * c.step.units())
        }),
{
    let rx = m.rotated(x);
    law_rotation_pads(m, x);
    lemma_rotated_bounded(m, x, n);
    let b = coordinate_bound(n, m.rounds);
    lemma_powers();
    lemma_drifted(n, m.rounds);
    let (t, r) = lemma_range_parts(rx, bits, b);
    let c = encoded(m, x, bits);
    law_codes_kept(m, x, bits);
    law_code_size(m, x, bits);
    let g = digits(bits, c.codes)[k];
    let (s, top) = (c.step.magnitude(), bits.top());
    lemma_least(rx, rx.len());
    lemma_greatest(rx, rx.len());
    assert(rx[k].finite());
    law_key_order(rx[k], offset_of(rx));
    law_key_order(rx[k], greatest(rx, rx.len()));
    lemma_body_order(0, c.step.body());
    assert(g * s <= top * s) by (nonlinear_arith)
        requires
            g <= top,
    ;
    assert((top * s) as real <= 4real * (pow2(264) as real) * 2real);
    lemma_restored_finite(c.lower, c.step, g);
    lemma_restored_value(c.lower, c.step, g);
    (t, r)
}

/// The error of an 8-bit code against the norm `n` of the vector: `b` bounds
/// the coordinates, `t` and `r` are the exact and the rounded range, `s` is the
/// step, `l` the offset and `e` the error.
proof fn lemma_eight_bit_error(n: real, b: real, t: real, r: real, s: real, l: real, e: real)
    requires
        0real <= t <= 2real * b,
        16777216real * size(r - t) <= t,
        16777216real * size(r - 255real * s) <= r + 2139095040real,
        s >= 8388608real,
        size(l) <= b,
        16777216real * e <= 8390139real * s + size(l),
    ensures
        254real * e <= b + 64real,
        b <= n + 147real * (n + 281474976710656real) / 100000000real ==> 128real * e <= n,
        n >= 549755813888real && b <= n + 147real * (n + 281474976710656real) / 100000real
            ==> 128real * e <= n,
{
}

/// The error of a 4-bit code of a vector of norm about one, with the names of
/// `lemma_eight_bit_error`.
proof fn lemma_four_bit_error(
    n: real,
    b: real,
    t: real,
    r: real,
    s: real,
    l: real,
    e: real,
    one: real,
)
    requires
        one >= 340282366920938463463374607431768211456real,
        0real <= n,
        10000real * n <= 10001real * one,
        b <= n + 147real * (n + 281474976710656real) / 100000real,
        0real <= t <= 2real * b,
        16777216real * size(r - t) <= t,
        16777216real * size(r - 15real * s) <= r + 125829120real,
        s >= 0real,
        size(l) <= b,
        16777216real * e <= 8388699real * s + size(l),
    ensures
        1000000real * (e - s / 2real) <= one,
{
}

/// With 8 bits, each rotated coordinate of a vector whose norm is at most `n`
/// is restored from its code up to `n / 128`, as computed, where the step is a
/// normal number, and the rotation has at most three rounds or `n` is not among
/// the smallest numbers; in any case up to one part in 254 of the bound on the
/// coordinates, and a quarter of the smallest number.
pub proof fn law_eight_bit_close(
    m: RotationModel<Binary32>,
    x: Seq<Binary32>,
    n: real,
    k: int,
)
    requires
        m.well_formed(),
        plain_rotation(m, m.dim),
        m.rounds <= 3000,
        m.dim <= u32::MAX,
        x.len() > 0,
        all_finite(padded(x, m.dim)),
        0real <= n <= pow2(264) as real,
        norm2(units_of(padded(x, m.dim))) <= product(n, n),
        0x80_0000 <= encoded(m, x, Bits::Eight).step.body() < INFINITY_BODY,
        0 <= k < m.dim,
    ensures
        ({
            let r = encoded(m, x, Bits::Eight).restored()[k];
            let e = size(r.units() as real - m.rotated(x)[k].units() as real);
            &&& r.finite()
            &&& 254real * e <= coordinate_bound(n, m.rounds) + 64real
            &&& m.rounds <= 3 || n >= 549755813888real ==> 128real * e <= n
        }),
{
    let bits = Bits::Eight;
    assert(!degenerate(m, x, bits));
    let (t, r) = lemma_code_parts(m, x, bits, n, k);
    let c = encoded(m, x, bits);
    let rx = m.rotated(x);
    law_restored_error(m, x, bits, k);
    lemma_normal_number(c.step);
    let e = size(c.restored()[k].units() as real - rx[k].units() as real);
    assert((0x80_0001 + 6 * bits.top()) * c.step.units() == 8390139 * c.step.units());
    assert(size(c.lower.units() as real) == c.lower.magnitude() as real);
    lemma_drifted(n, m.rounds);
    lemma_eight_bit_error(
        n,
        coordinate_bound(n, m.rounds),
        t,
        r,
        c.step.magnitude() as real,
        c.lower.units() as real,
        e,
    );
}

/// With 8 bits, each rotated coordinate of a vector of up to `d` entries of at
/// most `s` is restored from its code up to `s` times the root of `d`, over
/// 128, as computed, where the step is a normal number, and the rotation has at
/// most three rounds or that product is not among the smallest numbers; in any
/// case as `law_eight_bit_close` says of a norm of that size.
pub proof fn law_eight_bit_entries(
    m: RotationModel<Binary32>,
    x: Seq<Binary32>,
    s: real,
    d: nat,
    root: real,
    k: int,
)
    requires
        m.well_formed(),
        plain_rotation(m, m.dim),
        m.rounds <= 3000,
        m.dim <= u32::MAX,
        0 < x.len() <= d <= m.dim,
        all_finite(x),
        forall|j: int| 0 <= j < x.len() ==> (#[trigger] x[j]).magnitude() as real <= s,
        s <= pow2(248) as real,
        root >= 0real,
        product(root, root) == d as real,
        0x80_0000 <= encoded(m, x, Bits::Eight).step.body() < INFINITY_BODY,
        0 <= k < m.dim,
    ensures
        ({
            let n = product(s, root);
            let r = encoded(m, x, Bits::Eight).restored()[k];
            let e = size(r.units() as real - m.rotated(x)[k].units() as real);
            &&& r.finite()
            &&& 254real * e <= coordinate_bound(n, m.rounds) + 64real
            &&& m.rounds <= 3 || n >= 549755813888real ==> 128real * e <= n
        }),
{
    let n = product(s, root);
    assert(x[0].magnitude() as real <= s);
    lemma_padded_norm(x, m.dim, s, root);
    lemma_positive(s, root);
    lemma_multiple(65536real, 1real, 65536real);
    lemma_constant_factors(65536real);
    lemma_root_order(root, 65536real);
    let p = pow2(248) as real;
    lemma_factor_order(s, root, 65536real);
    lemma_commute(s, 65536real);
    lemma_multiple(65536real, 1real, s);
    lemma_constant_factors(s);
    lemma2_to64();
    lemma_pow2_adds(16, 248);
    law_eight_bit_close(m, x, n, k);
}

/// The error of a 4-bit code whose step is below the normal numbers, with the
/// names of `lemma_eight_bit_error`; `c` is the code in steps.
proof fn lemma_tiny_step_error(
    n: real,
    b: real,
    t: real,
    r: real,
    s: real,
    l: real,
    c: real,
    e: real,
    one: real,
)
    requires
        one >= 340282366920938463463374607431768211456real,
        0real <= n,
        10000real * n <= 10001real * one,
        b <= n + 147real * (n + 281474976710656real) / 100000real,
        0real <= t,
        16777216real * size(r - t) <= t,
        16777216real * size(r - 15real * s) <= r + 125829120real,
        0real <= s <= 8388608real,
        0real <= c <= 15real * s,
        size(l) <= b,
        16777216real * e <= 16777216real * (t + c) + size(l) + 3real * c,
    ensures
        1000000real * e <= one,
{
}

/// With 4 bits, each rotated coordinate of a vector whose norm is one, or
/// above that by at most a ten-thousandth, is restored from its code up to half
/// a step and a millionth, as computed.
pub proof fn law_four_bit_unit(m: RotationModel<Binary32>, x: Seq<Binary32>, n: real, k: int)
    requires
        m.well_formed(),
        plain_rotation(m, m.dim),
        m.rounds <= 3000,
        m.dim <= u32::MAX,
        all_finite(padded(x, m.dim)),
        0real <= n,
        10000real * n <= 10001real * one(),
        norm2(units_of(padded(x, m.dim))) <= product(n, n),
        !degenerate(m, x, Bits::Four),
        0 <= k < m.dim,
    ensures
        ({
            let c = encoded(m, x, Bits::Four);
            let r = c.restored()[k];
            let e = size(r.units() as real - m.rotated(x)[k].units() as real);
            &&& r.finite()
            &&& c.step.units() > 0
            &&& 1000000real * (e - c.step.units() as real / 2real) <= one()
        }),
{
    let bits = Bits::Four;
    lemma_powers();
    let (t, r) = lemma_code_parts(m, x, bits, n, k);
    let c = encoded(m, x, bits);
    let rx = m.rotated(x);
    let e = size(c.restored()[k].units() as real - rx[k].units() as real);
    let (s, l) = (c.step.magnitude(), c.lower.units() as real);
    let b = coordinate_bound(n, m.rounds);
    lemma_drifted(n, m.rounds);
    assert(size(l) == c.lower.magnitude() as real);
    if c.step.body() >= 0x80_0000 {
        law_restored_error(m, x, bits, k);
        assert((0x80_0001 + 6 * bits.top()) * c.step.units() == 8388699 * c.step.units());
        lemma_four_bit_error(n, b, t, r, s as real, l, e, one());
    } else {
        let g = digits(bits, c.codes)[k];
        assert(g * s <= 15 * s) by (nonlinear_arith)
            requires
                g <= 15,
        ;
        lemma_tiny_step_error(n, b, t, r, s as real, l, (g * s) as real, e, one());
    }
}

/// How far rotating back is from undoing a rotation, without rounding.
proof fn lemma_unrotated_distance(m: RotationModel<real>, r: Seq<real>, u: Seq<real>)
    requires
        signed_rotation(m, m.dim),
        r.len() == m.dim,
        u.len() == m.dim,
    ensures
        m.unrotated(r).len() == m.dim,
        norm2(differences(m.unrotated(r), u)) == norm2(differences(r, m.rotated(u))),
{
    law_unrotated_dimension(m, r);
    law_rotation_undone(m, u, r);
    let v = m.unrotated(r);
    law_rotation_keeps(m, v, u);
    assert(padded(v, m.dim) =~= v && padded(u, m.dim) =~= u);
}

/// How far a decoded vector can be from the vector, where the restored vector is
/// at most `a` away from the rotated one and the norm of the vector is at most
/// `n`: by that much, and by what rotating the vector, and rotating the restored
/// vector back, can drift.
pub open spec fn decoded_bound(a: real, n: real, rounds: nat) -> real {
    a + drifted(n, rounds) + drifted(coordinate_bound(n, rounds) + a, rounds)
}

/// A decoded vector is near the vector that was encoded, as computed: every
/// restored coordinate is off by at most `h`, and the square of `root` is the
/// dimension, so that the restored vector is off by at most `root` times `h`.
pub proof fn law_decoded_close(
    m: RotationModel<Binary32>,
    x: Seq<Binary32>,
    r: Seq<Binary32>,
    n: real,
    h: real,
    root: real,
)
    requires
        m.well_formed(),
        plain_rotation(m, m.dim),
        m.rounds <= 3000,
        m.dim <= u32::MAX,
        all_finite(padded(x, m.dim)),
        0real <= n <= pow2(262) as real,
        norm2(units_of(padded(x, m.dim))) <= product(n, n),
        r.len() == m.dim,
        all_finite(r),
        h >= 0real,
        forall|k: int|
            0 <= k < m.dim ==> size(
                (#[trigger] r[k]).units() as real - m.rotated(x)[k].units() as real,
            ) <= h,
        root >= 0real,
        product(root, root) == m.dim as real,
        product(root, h) <= pow2(262) as real,
    ensures
        ({
            let bound = decoded_bound(product(root, h), n, m.rounds);
            let off = differences(units_of(m.unrotated(r)), units_of(padded(x, m.dim)));
            &&& m.unrotated(r).len() == m.dim
            &&& all_finite(m.unrotated(r))
            &&& norm2(off) <= product(bound, bound)
            &&& forall|k: int| 0 <= k < m.dim ==> size(#[trigger] off[k]) <= bound
        }),
{
    let p = padded(x, m.dim);
    let u = units_of(p);
    let e = exact_rotation(m);
    let (rx, ur) = (units_of(m.rotated(x)), units_of(r));
    let a = product(root, h);
    lemma_powers();
    lemma2_to64();
    lemma_pow2_adds(2, 262);
    lemma_rotated_bounded(m, x, n);
    lemma_drifted(n, m.rounds);
    lemma_positive(root, h);
    // The restored vector against the computed rotation.
    let d = differences(ur, rx);
    assert forall|k: int| 0 <= k < d.len() implies size(#[trigger] d[k]) <= h by {
        assert(size(r[k].units() as real - m.rotated(x)[k].units() as real) <= h);
    }
    lemma_bounded_norm(d, m.dim, h);
    lemma_square_of_product(root, h);
    assert(ur =~= sums(rx, d));
    let b = coordinate_bound(n, m.rounds);
    lemma_sum_of_norms(rx, d, b, a);
    let nr = b + a;
    // The computed rotation against the exact one.
    lemma_rotation_off(m, x, n);
    let er = e.rotated(u);
    let f = differences(rx, er);
    let w = drifted(n, m.rounds);
    lemma_sum_of_norms(d, f, a, w);
    assert(differences(ur, er) =~= sums(d, f));
    // The exact inverse of the restored vector against the vector.
    lemma_plain_signed(m, m.dim);
    lemma_unrotated_distance(e, ur, u);
    let back = e.unrotated(ur);
    // The computed inverse against the exact one.
    lemma_unrotation_off(m, r, nr);
    let y = units_of(m.unrotated(r));
    let t = differences(y, back);
    let v = drifted(nr, m.rounds);
    let s = differences(back, u);
    lemma_sum_of_norms(t, s, v, a + w);
    let off = differences(y, u);
    assert(off =~= sums(t, s));
    let bound = decoded_bound(a, n, m.rounds);
    assert(v + (a + w) == bound);
    assert forall|k: int| 0 <= k < m.dim implies size(#[trigger] off[k]) <= bound by {
        lemma_element_bound(off, bound, k);
    }
}

/// A bound on the error of every restored coordinate of a code whose step is a
/// normal number.
pub open spec fn restored_bound(c: CodeModel<Binary32>) -> real {
    let w = match c.bits {
        Bits::Four => 8388699real,
        Bits::Eight => 8390139real,
    };
    (w * (c.step.magnitude() as real) + c.lower.magnitude() as real) / 16777216real
}

/// Decoding the code of a vector gives the vector, zero-padded to the output
/// dimension, up to the bound of [`law_decoded_close`], as computed, where the
/// step is a normal number.
pub proof fn law_decode_close(
    m: RotationModel<Binary32>,
    x: Seq<Binary32>,
    bits: Bits,
    n: real,
    root: real,
)
    requires
        m.well_formed(),
        plain_rotation(m, m.dim),
        m.rounds <= 3000,
        m.dim <= u32::MAX,
        x.len() > 0,
        all_finite(padded(x, m.dim)),
        0real <= n <= pow2(262) as real,
        norm2(units_of(padded(x, m.dim))) <= product(n, n),
        0x80_0000 <= encoded(m, x, bits).step.body() < INFINITY_BODY,
        root >= 0real,
        product(root, root) == m.dim as real,
        product(root, restored_bound(encoded(m, x, bits))) <= pow2(262) as real,
    ensures
        ({
            let c = encoded(m, x, bits);
            let bound = decoded_bound(product(root, restored_bound(c)), n, m.rounds);
            let y = m.unrotated(c.restored());
            let off = differences(units_of(y), units_of(padded(x, m.dim)));
            &&& y.len() == m.dim
            &&& all_finite(y)
            &&& norm2(off) <= product(bound, bound)
            &&& forall|k: int| 0 <= k < m.dim ==> size(#[trigger] off[k]) <= bound
        }),
{
    let c = encoded(m, x, bits);
    let (h, r, rx) = (restored_bound(c), c.restored(), m.rotated(x));
    assert(!degenerate(m, x, bits));
    law_code_size(m, x, bits);
    lemma2_to64();
    lemma_pow2_adds(2, 262);
    assert forall|k: int| 0 <= k < m.dim implies (#[trigger] r[k]).finite() && size(
        r[k].units() as real - rx[k].units() as real,
    ) <= h by {
        lemma_code_parts(m, x, bits, n, k);
        law_restored_error(m, x, bits, k);
        let s = c.step.units();
        match bits {
            Bits::Four => {
                assert((0x80_0001 + 6 * bits.top()) * s == 8388699 * s);
            },
            Bits::Eight => {
                assert((0x80_0001 + 6 * bits.top()) * s == 8390139 * s);
            },
        }
    }
    law_decoded_close(m, x, r, n, h, root);
}

/// The bound on restored coordinates, times the root of the dimension.
proof fn lemma_rooted_bound(c: CodeModel<Binary32>, root: real, t: real)
    requires
        root >= 0real,
        product(root, c.step.magnitude() as real) <= t,
    ensures
        product(root, restored_bound(c)) <= (8390139real * t + product(
            root,
            c.lower.magnitude() as real,
        )) / 16777216real,
        product(root, restored_bound(c)) >= 0real,
{
    let (s, l) = (c.step.magnitude() as real, c.lower.magnitude() as real);
    let w = 8390139real / 16777216real;
    let k = 1real / 16777216real;
    lemma_positive(root, restored_bound(c));
    lemma_factor_order(root, restored_bound(c), w * s + k * l);
    lemma_distribute(root, w * s, k * l);
    lemma_commute(root, w * s);
    lemma_multiple(w, s, root);
    lemma_commute(s, root);
    lemma_commute(root, k * l);
    lemma_multiple(k, l, root);
    lemma_commute(l, root);
}

/// Decoding the code of a vector whose norm is one, or above that by at most a
/// ten-thousandth, gives each entry up to a hundredth, as computed, in up to a
/// million dimensions, where the step is a normal number and at most one part
/// in 73 of the reciprocal of the root of the dimension; with at most three
/// rounds, one part in 51.
pub proof fn law_unit_decoded(
    m: RotationModel<Binary32>,
    x: Seq<Binary32>,
    bits: Bits,
    n: real,
    root: real,
    k: int,
)
    requires
        m.well_formed(),
        plain_rotation(m, m.dim),
        m.rounds <= 3000,
        m.dim <= 1_048_576,
        x.len() > 0,
        all_finite(padded(x, m.dim)),
        0real <= n,
        10000real * n <= 10001real * one(),
        norm2(units_of(padded(x, m.dim))) <= product(n, n),
        0x80_0000 <= encoded(m, x, bits).step.body() < INFINITY_BODY,
        root >= 0real,
        product(root, root) == m.dim as real,
        ({
            let t = product(root, encoded(m, x, bits).step.magnitude() as real);
            73real * t <= one() || m.rounds <= 3 && 51real * t <= one()
        }),
        0 <= k < m.dim,
    ensures
        ({
            let y = m.unrotated(encoded(m, x, bits).restored());
            &&& y.len() == m.dim
            &&& y[k].finite()
            &&& 100real * size(y[k].units() as real - padded(x, m.dim)[k].units() as real) <= one()
        }),
{
    let c = encoded(m, x, bits);
    lemma_powers();
    lemma2_to64();
    lemma_pow2_adds(2, 262);
    assert(!degenerate(m, x, bits));
    lemma_code_parts(m, x, bits, n, k);
    lemma_multiple(1024real, 1real, 1024real);
    lemma_constant_factors(1024real);
    lemma_root_order(root, 1024real);
    let l = c.lower.magnitude() as real;
    lemma_factor_order(l, root, 1024real);
    lemma_multiple(1024real, 1real, l);
    lemma_constant_factors(l);
    let t = product(root, c.step.magnitude() as real);
    lemma_rooted_bound(c, root, t);
    lemma_drifted(n, m.rounds);
    lemma_drifted(coordinate_bound(n, m.rounds) + product(root, restored_bound(c)), m.rounds);
    law_decode_close(m, x, bits, n, root);
    let y = m.unrotated(c.restored());
    let off = differences(units_of(y), units_of(padded(x, m.dim)));
    assert(size(off[k]) * 100real <= one());
    assert(y[k].finite());
}

/// A bound on the distance of a rotated coordinate from the exact value of its
/// code, where the step is a normal number.
pub open spec fn step_bound(c: CodeModel<Binary32>) -> real {
    let w = match c.bits {
        Bits::Four => 8388654real,
        Bits::Eight => 8389374real,
    };
    w * (c.step.magnitude() as real) / 16777216real
}

/// The exact values of a code's coordinates, in units.
pub open spec fn code_values(c: CodeModel<Binary32>) -> Seq<real> {
    let d = digits(c.bits, c.codes);
    Seq::new(
        d.len(),
        |k: int| c.lower.units() as real + (d[k] * (c.step.units() as int)) as real,
    )
}

/// How far the exact values of a code can be from the exact rotation of the
/// vector: the square of `root` is the dimension, and `n` bounds the norm of the
/// vector.
pub open spec fn code_off(c: CodeModel<Binary32>, n: real, root: real, rounds: nat) -> real {
    product(root, step_bound(c)) + drifted(n, rounds)
}

/// The exact values of a code are near the exact rotation of the vector that
/// was encoded, where the step is a normal number.
pub proof fn law_code_near_rotation(
    m: RotationModel<Binary32>,
    x: Seq<Binary32>,
    bits: Bits,
    n: real,
    root: real,
)
    requires
        m.well_formed(),
        plain_rotation(m, m.dim),
        m.rounds <= 3000,
        m.dim <= u32::MAX,
        x.len() > 0,
        all_finite(padded(x, m.dim)),
        0real <= n <= pow2(264) as real,
        norm2(units_of(padded(x, m.dim))) <= product(n, n),
        0x80_0000 <= encoded(m, x, bits).step.body() < INFINITY_BODY,
        root >= 0real,
        product(root, root) == m.dim as real,
    ensures
        ({
            let c = encoded(m, x, bits);
            let e = exact_rotation(m).rotated(units_of(padded(x, m.dim)));
            let b = code_off(c, n, root, m.rounds);
            &&& code_values(c).len() == m.dim
            &&& e.len() == m.dim
            &&& b >= 0real
            &&& norm2(differences(code_values(c), e)) <= product(b, b)
        }),
{
    let c = encoded(m, x, bits);
    let (rx, cv) = (units_of(m.rotated(x)), code_values(c));
    let h = step_bound(c);
    assert(!degenerate(m, x, bits));
    law_code_size(m, x, bits);
    law_rotation_pads(m, x);
    lemma_rotated_bounded(m, x, n);
    lemma_powers();
    let d = differences(cv, rx);
    assert forall|k: int| 0 <= k < m.dim implies size(#[trigger] d[k]) <= h by {
        lemma_code_parts(m, x, bits, n, k);
        law_encoded_error(m, x, bits, k);
        let s = c.step.units();
        match bits {
            Bits::Four => {
                assert((0x80_0001 + 3 * bits.top()) * s == 8388654 * s);
            },
            Bits::Eight => {
                assert((0x80_0001 + 3 * bits.top()) * s == 8389374 * s);
            },
        }
    }
    lemma_bounded_norm(d, m.dim, h);
    lemma_square_of_product(root, h);
    lemma_positive(root, h);
    lemma_rotation_off(m, x, n);
    let e = exact_rotation(m).rotated(units_of(padded(x, m.dim)));
    let f = differences(rx, e);
    lemma_sum_of_norms(d, f, product(root, h), drifted(n, m.rounds));
    assert(differences(cv, e) =~= sums(d, f));
}

/// The square of a product.
proof fn lemma_square_of_product(a: real, b: real)
    ensures
        product(product(a, b), product(a, b)) == product(product(a, a), product(b, b)),
{
    lemma_associate(a, b, product(a, b));
    lemma_commute(b, product(a, b));
    lemma_associate(a, b, b);
    lemma_associate(a, a, product(b, b));
}

} // verus!
