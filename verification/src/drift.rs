//! How far a computed rotation drifts from the exact one.
//!
//! Vectors are measured in units of `2^-149`, the smallest positive number.

#[allow(unused_imports)]
use crate::algebra::{
    lemma_commute, lemma_constant_factors, lemma_distribute, lemma_factor_order, lemma_multiple,
    lemma_positive, lemma_scaled_factors, lemma_square, lemma_sums, product, quotient,
};
#[allow(unused_imports)]
use crate::arith::Arithmetic;
#[allow(unused_imports)]
use crate::binary32::{body_magnitude, compose, Binary32};
#[allow(unused_imports)]
use crate::exact::{
    differences, law_blockwise_orthogonal, lemma_block_256, lemma_block_64, lemma_hadamard_inner,
    lemma_hadamard_linear, lemma_rounds_undone, lemma_swap_pass_inner, lemma_swap_pass_undone, sums,
    swap_fits, unit_sign,
};
#[allow(unused_imports)]
use crate::hadamard::{
    blockwise, butterfly, hadamard, lemma_blockwise_len, lemma_hadamard_len, normalized, scaled,
};
#[allow(unused_imports)]
use crate::laws::{
    exact_rotation, exact_value, exact_values, lemma_plain_signed, lemma_sign_values,
    plain_rotation,
};
#[allow(unused_imports)]
use crate::norms::{
    lemma_bounded_norm, lemma_compose_bounds, lemma_element_bound, lemma_fraction,
    lemma_inner_bound, lemma_joined_bound, lemma_norm, lemma_norm_of_butterfly, lemma_norm_of_sum,
    lemma_tiny, lemma_triangle, lemma_weaken, norm2, within,
};
use crate::pairing::Swap;
#[allow(unused_imports)]
use crate::precision::{gap, law_rounding_exact, law_rounding_monotone, law_rounding_relative};
#[allow(unused_imports)]
use crate::recovery::size;
#[allow(unused_imports)]
use crate::rotation::{padded, swap_pass, swap_step, unswap_pass, unswap_step, RotationModel};
#[allow(unused_imports)]
use crate::rounded::{is_sign, lemma_round_nothing, lemma_sign_exact};
#[allow(unused_imports)]
use crate::rounding::{lemma_body_scaled, round_body, INFINITY_BODY};
use vstd::arithmetic::power2::{
    lemma2_to64, lemma_pow2_adds, lemma_pow2_pos, lemma_pow2_unfold, pow2,
};
use vstd::prelude::*;

verus! {

/// The values of finite numbers, in units.
pub open spec fn units_of(x: Seq<Binary32>) -> Seq<real> {
    Seq::new(x.len(), |k: int| x[k].units() as real)
}

/// All numbers are finite.
pub open spec fn all_finite(x: Seq<Binary32>) -> bool {
    forall|k: int| 0 <= k < x.len() ==> (#[trigger] x[k]).finite()
}

/// The absolute value of an integer.
pub open spec fn magnitude_of(t: int) -> nat {
    if t < 0 {
        (-t) as nat
    } else {
        t as nat
    }
}

/// Rounding a whole number of units of at most `2^272`.
pub proof fn lemma_whole_rounded(t: nat)
    requires
        t <= pow2(272),
    ensures
        round_body(t, 1) < INFINITY_BODY,
        0x100_0000 * gap(t, body_magnitude(round_body(t, 1))) <= t,
{
    lemma2_to64();
    lemma_pow2_adds(23, 249);
    assert(body_magnitude(0x7d00_0000) == 0x80_0000 * pow2(249));
    law_rounding_exact(0x7d00_0000);
    law_rounding_monotone(t, 1, pow2(272), 1);
    law_rounding_relative(t, 1);
}

/// A computed sum is off by at most one part in `2^24`.
pub proof fn lemma_sum_near(a: Binary32, b: Binary32)
    requires
        a.finite(),
        b.finite(),
        magnitude_of(a.units() + b.units()) <= pow2(272),
    ensures
        a.plus(b).finite(),
        16777216real * size(a.plus(b).units() as real - (a.units() as real + b.units() as real))
            <= size(a.units() as real + b.units() as real),
{
    let t = a.units() + b.units();
    let n = magnitude_of(t);
    lemma_whole_rounded(n);
    lemma_round_nothing(1);
    let r = a.plus(b);
    assert(r.body() == round_body(n, 1));
    assert(0x100_0000 * magnitude_of(r.units() - t) <= n);
}

/// A computed difference is off by at most one part in `2^24`.
pub proof fn lemma_difference_near(a: Binary32, b: Binary32)
    requires
        a.finite(),
        b.finite(),
        magnitude_of(a.units() - b.units()) <= pow2(272),
    ensures
        a.minus(b).finite(),
        16777216real * size(a.minus(b).units() as real - (a.units() as real - b.units() as real))
            <= size(a.units() as real - b.units() as real),
{
    let n = b.negated();
    assert(n.body() == b.body());
    assert(n.units() == -b.units());
    lemma_sum_near(a, n);
}

/// The factors `1 / 8` and `1 / 16` as computed numbers.
pub proof fn lemma_factor_parts(k: nat)
    requires
        k == 3 || k == 4,
    ensures
        Binary32::half_pow(k).finite(),
        !Binary32::half_pow(k).negative(),
        !Binary32::half_pow(k).is_zero(),
        Binary32::half_pow(k).magnitude() == pow2((149 - k) as nat),
        pow2(149) == pow2(k) * pow2((149 - k) as nat),
{
    lemma2_to64();
    let f = Binary32::half_pow(k);
    lemma_pow2_adds(k, (149 - k) as nat);
    lemma_pow2_adds(23, (126 - k) as nat);
    assert(f.body() == (127 - k) * 0x80_0000);
    assert(f.body() / 0x80_0000 == 127 - k && f.body() % 0x80_0000 == 0);
}

/// A number scaled by `2^-k`.
pub proof fn lemma_scaled_number(a: Binary32, k: nat)
    requires
        a.finite(),
        k == 3 || k == 4,
    ensures
        Binary32::half_pow(k).times(a) == compose(
            a.negative(),
            round_body(a.magnitude(), pow2(k)),
        ),
        round_body(a.magnitude(), pow2(k)) < INFINITY_BODY,
{
    lemma2_to64();
    lemma_factor_parts(k);
    let (m, p, d) = (a.magnitude(), pow2((149 - k) as nat), pow2(k));
    lemma_pow2_pos((149 - k) as nat);
    assert(p * m == m * p) by (nonlinear_arith);
    lemma_body_scaled(m, d, p);
    assert(m * 1 <= m * d) by (nonlinear_arith)
        requires
            d >= 1,
    ;
    law_rounding_monotone(m, d, m, 1);
    law_rounding_exact(a.body());
}

/// A magnitude divided by `2^k` is rounded by less than a unit, and not at all
/// where the quotient is a normal number.
pub proof fn lemma_scaled_magnitude(body: nat, k: nat)
    requires
        body < INFINITY_BODY,
        k == 3 || k == 4,
    ensures
        body >= (k + 1) * 0x80_0000 ==> body_magnitude(body) == pow2(k) * body_magnitude(
            round_body(body_magnitude(body), pow2(k)),
        ),
        gap(
            body_magnitude(body),
            body_magnitude(round_body(body_magnitude(body), pow2(k))) * pow2(k),
        ) < pow2(k),
{
    lemma2_to64();
    let (m, d) = (body_magnitude(body), pow2(k));
    if body >= (k + 1) * 0x80_0000 {
        let b = (body - k * 0x80_0000) as nat;
        let (e, f) = ((body / 0x80_0000 - 1) as nat, (b / 0x80_0000 - 1) as nat);
        assert(b / 0x80_0000 == body / 0x80_0000 - k && b % 0x80_0000 == body % 0x80_0000);
        lemma_pow2_adds(k, f);
        let (s, n) = (0x80_0000 + body % 0x80_0000, body_magnitude(b));
        assert(m == n * d) by (nonlinear_arith)
            requires
                m == s * pow2(e),
                n == s * pow2(f),
                pow2(e) == d * pow2(f),
        ;
        assert(1 * d == d);
        lemma_body_scaled(n, 1, d);
        law_rounding_exact(b);
    } else {
        let s = 0x80_0000 + body % 0x80_0000;
        let q = body / 0x80_0000;
        if q > 0 {
            let e = (q - 1) as nat;
            assert(m == s * pow2(e));
            assert(e == 0 || e == 1 || e == 2 || e == 3);
            lemma_pow2_pos(e);
            assert(2 * pow2(e) <= d);
            assert(m < 0x80_0000 * d) by (nonlinear_arith)
                requires
                    m == s * pow2(e),
                    s < 0x100_0000,
                    pow2(e) > 0,
                    2 * pow2(e) <= d,
            ;
        }
        assert(m < 0x80_0000 * d);
        assert(m * 1 <= m * d) by (nonlinear_arith)
            requires
                d >= 1,
        ;
        law_rounding_monotone(m, d, m, 1);
        law_rounding_exact(body);
        law_rounding_relative(m, d);
    }
}

/// A number scaled by `2^-k` is off by less than a unit.
#[verifier::rlimit(40)]
proof fn lemma_scaled_near(a: Binary32, k: nat)
    requires
        a.finite(),
        k == 3 || k == 4,
    ensures
        Binary32::half_pow(k).times(a).finite(),
        k == 3 ==> magnitude_of(8 * Binary32::half_pow(k).times(a).units() - a.units()) < 8,
        k == 4 ==> magnitude_of(16 * Binary32::half_pow(k).times(a).units() - a.units()) < 16,
{
    lemma2_to64();
    lemma_scaled_number(a, k);
    lemma_scaled_magnitude(a.body(), k);
    let (m, d) = (a.magnitude(), pow2(k));
    let b = round_body(m, d);
    let r = compose(a.negative(), b);
    assert(r.body() == b && r.negative() == a.negative());
}

/// The norm that computed vectors may have, squared.
pub open spec fn limit() -> real {
    product(pow2(270) as real, pow2(270) as real)
}

/// A vector near another one has about its norm.
proof fn lemma_near_norm(x: Seq<real>, e: Seq<real>, g: real, q: real)
    requires
        x.len() == e.len(),
        g > 0real,
        within(differences(x, e), g, q),
        within(e, 1real, q),
    ensures
        within(x, 1real + g, q),
{
    lemma_triangle(e, differences(x, e), 1real, g, q);
    assert(sums(e, differences(x, e)) =~= x);
}

/// The elements of a vector whose norm is about at most the limit.
proof fn lemma_elements_limited(x: Seq<real>, g: real, q: real, k: int)
    requires
        0real < g <= 1real,
        0real <= q <= limit(),
        within(x, 1real + g, q),
        0 <= k < x.len(),
    ensures
        size(x[k]) <= 2real * (pow2(270) as real),
{
    let b = pow2(270) as real;
    lemma_weaken(x, 1real + g, q, 2real, limit());
    lemma_constant_factors(2real);
    lemma_multiple(4real, 1real, limit());
    lemma_constant_factors(limit());
    lemma_scaled_factors(b, b);
    lemma_scaled_factors(b, 2real * b);
    lemma_element_bound(x, 2real * b, k);
}

/// The rounding of sums and differences of computed vectors.
spec fn rounding_of(p: Seq<Binary32>, q: Seq<Binary32>) -> Seq<real> {
    let (u, v) = (units_of(p), units_of(q));
    differences(units_of(butterfly(p, q)), sums(u, v) + differences(u, v))
}

/// The rounding of sums and differences is small, and no sum overflows.
proof fn lemma_rounding_small(p: Seq<Binary32>, q: Seq<Binary32>)
    requires
        p.len() == q.len(),
        all_finite(p),
        all_finite(q),
        forall|k: int|
            0 <= k < p.len() ==> size(#[trigger] units_of(p)[k]) <= 2real * (pow2(270) as real),
        forall|k: int|
            0 <= k < q.len() ==> size(#[trigger] units_of(q)[k]) <= 2real * (pow2(270) as real),
    ensures
        all_finite(butterfly(p, q)),
        within(
            rounding_of(p, q),
            1real / 16777216real,
            norm2(sums(units_of(p), units_of(q)) + differences(units_of(p), units_of(q))),
        ),
{
    let (u, v) = (units_of(p), units_of(q));
    let n = p.len() as int;
    let w = sums(u, v) + differences(u, v);
    let out = butterfly(p, q);
    let rho = rounding_of(p, q);
    lemma2_to64();
    lemma_pow2_adds(2, 270);
    assert forall|k: int| 0 <= k < out.len() implies (#[trigger] out[k]).finite() && size(rho[k])
        <= product(1real / 16777216real, size(w[k])) by {
        let t = if k < n {
            k
        } else {
            k - n
        };
        let (a, b) = (p[t], q[t]);
        assert(a.finite() && b.finite());
        assert(size(u[t]) <= 2real * (pow2(270) as real));
        assert(size(v[t]) <= 2real * (pow2(270) as real));
        if k < n {
            lemma_sum_near(a, b);
        } else {
            lemma_difference_near(a, b);
        }
        lemma_tiny(size(w[k]));
    }
    lemma_fraction(rho, w, 1real / 16777216real);
}

/// One level of the transform: computed halves that are near exact ones give
/// computed sums and differences near the exact ones.
proof fn lemma_butterfly_drift(
    p: Seq<Binary32>,
    q: Seq<Binary32>,
    a: Seq<real>,
    b: Seq<real>,
    g: real,
    qa: real,
    qb: real,
)
    requires
        p.len() == q.len() == a.len() == b.len(),
        all_finite(p),
        all_finite(q),
        0real < g <= 1real,
        0real <= qa <= limit(),
        0real <= qb <= limit(),
        within(differences(units_of(p), a), g, qa),
        within(differences(units_of(q), b), g, qb),
        within(a, 1real, qa),
        within(b, 1real, qb),
    ensures
        all_finite(butterfly(p, q)),
        within(
            differences(units_of(butterfly(p, q)), sums(a, b) + differences(a, b)),
            g + (1real + g) / 16777216real,
            2real * (qa + qb),
        ),
{
    let (u, v) = (units_of(p), units_of(q));
    let (du, dv) = (differences(u, a), differences(v, b));
    let h = 1real + g;
    let both = 2real * (qa + qb);
    lemma_near_norm(u, a, g, qa);
    lemma_near_norm(v, b, g, qb);
    assert forall|k: int| 0 <= k < p.len() implies size(#[trigger] u[k]) <= 2real * (pow2(
        270,
    ) as real) by {
        lemma_elements_limited(u, g, qa, k);
    }
    assert forall|k: int| 0 <= k < q.len() implies size(#[trigger] v[k]) <= 2real * (pow2(
        270,
    ) as real) by {
        lemma_elements_limited(v, g, qb, k);
    }
    lemma_rounding_small(p, q);
    let w = sums(u, v) + differences(u, v);
    let rho = rounding_of(p, q);
    lemma_norm_of_butterfly(u, v);
    lemma_norm_of_butterfly(du, dv);
    lemma_twice_both(h, qa, qb);
    lemma_twice_both(g, qa, qb);
    lemma_compose_bounds(rho, norm2(w), 1real / 16777216real, h, both);
    lemma_tiny(h);
    let e = sums(du, dv) + differences(du, dv);
    lemma_triangle(e, rho, g, h / 16777216real, both);
    let out = butterfly(p, q);
    assert(differences(units_of(out), sums(a, b) + differences(a, b)) =~= sums(e, rho));
}

/// Twice the bounds of two halves.
proof fn lemma_twice_both(g: real, qa: real, qb: real)
    ensures
        2real * (product(product(g, g), qa) + product(product(g, g), qb)) == product(
            product(g, g),
            2real * (qa + qb),
        ),
{
    lemma_distribute(product(g, g), qa, qb);
    lemma_scaled_factors(product(g, g), qa + qb);
}

/// How much of its norm a transform of `levels` levels drifts.
pub open spec fn level_drift(levels: nat) -> real {
    (levels as real + 1real / 32real) / 16777000real
}

/// The computed transform of a block is near the exact one.
pub proof fn law_transform_drift(x: Seq<Binary32>, levels: nat)
    requires
        x.len() == pow2(levels),
        levels <= 8,
        all_finite(x),
        norm2(hadamard(units_of(x))) <= limit(),
    ensures
        hadamard(x).len() == x.len(),
        all_finite(hadamard(x)),
        within(
            differences(units_of(hadamard(x)), hadamard(units_of(x))),
            level_drift(levels),
            norm2(hadamard(units_of(x))),
        ),
    decreases levels,
{
    lemma2_to64();
    let u = units_of(x);
    lemma_hadamard_len(x, levels);
    lemma_hadamard_len(u, levels);
    lemma_norm(hadamard(u));
    if levels == 0 {
        let d = differences(units_of(hadamard(x)), hadamard(u));
        assert(d =~= seq![0real]);
        lemma_nothing(d, level_drift(0), norm2(hadamard(u)));
    } else {
        let l = (levels - 1) as nat;
        lemma_pow2_unfold(levels);
        lemma_pow2_pos(l);
        let n = x.len() as int;
        let half = n / 2;
        let (x1, x2) = (x.subrange(0, half), x.subrange(half, n));
        let (u1, u2) = (u.subrange(0, half), u.subrange(half, n));
        assert(units_of(x1) =~= u1);
        assert(units_of(x2) =~= u2);
        let (a, b) = (hadamard(u1), hadamard(u2));
        lemma_hadamard_len(u1, l);
        lemma_hadamard_len(u2, l);
        assert(hadamard(u) =~= sums(a, b) + differences(a, b));
        lemma_norm_of_butterfly(a, b);
        lemma_norm(a);
        lemma_norm(b);
        law_transform_drift(x1, l);
        law_transform_drift(x2, l);
        let g = level_drift(l);
        lemma_own_bound(a);
        lemma_own_bound(b);
        lemma_butterfly_drift(hadamard(x1), hadamard(x2), a, b, g, norm2(a), norm2(b));
        let d = differences(units_of(hadamard(x)), hadamard(u));
        lemma_weaken(
            d,
            g + (1real + g) / 16777216real,
            norm2(hadamard(u)),
            level_drift(levels),
            norm2(hadamard(u)),
        );
    }
}

/// A vector is within its own norm.
proof fn lemma_own_bound(a: Seq<real>)
    ensures
        within(a, 1real, norm2(a)),
{
    lemma_constant_factors(1real);
    lemma_constant_factors(norm2(a));
}

/// A vector of zeros is within any bound.
proof fn lemma_nothing(d: Seq<real>, g: real, q: real)
    requires
        forall|k: int| 0 <= k < d.len() ==> #[trigger] d[k] == 0real,
        q >= 0real,
    ensures
        norm2(d) == 0real,
        within(d, g, q),
{
    assert forall|k: int| 0 <= k < d.len() implies size(#[trigger] d[k]) <= product(
        0real,
        size(d[k]),
    ) by {
        lemma_constant_factors(size(d[k]));
    }
    lemma_fraction(d, d, 0real);
    lemma_constant_factors(0real);
    lemma_constant_factors(norm2(d));
    lemma_norm(d);
    lemma_square(g);
    lemma_positive(product(g, g), q);
}

/// The squared norm, and a share for each element for what rounding adds to
/// the smallest numbers.
pub open spec fn weight(v: Seq<real>) -> real {
    norm2(v) + (v.len() as real) * 18446744073709551616real
}

/// The factors `1 / 16` and `1 / 8`.
pub proof fn lemma_normalizing(v: real)
    ensures
        product(real::half_pow(4), v) == v / 16real,
        product(real::half_pow(3), v) == v / 8real,
{
    lemma2_to64();
    reveal(quotient);
    lemma_multiple(1real / 16real, 1real, v);
    lemma_multiple(1real / 8real, 1real, v);
    lemma_constant_factors(v);
}

/// The rounding of scaling a block.
spec fn scaling_of(x: Seq<Binary32>, k: nat) -> Seq<real> {
    differences(
        units_of(scaled(x, Binary32::half_pow(k))),
        scaled(units_of(x), real::half_pow(k)),
    )
}

/// The rounding of scaling a block is small.
proof fn lemma_scaling_small(x: Seq<Binary32>, k: nat, levels: nat)
    requires
        k == 3 && levels == 6 || k == 4 && levels == 8,
        x.len() == pow2(levels),
        all_finite(x),
    ensures
        all_finite(scaled(x, Binary32::half_pow(k))),
        norm2(normalized(units_of(x), k)) == norm2(units_of(x)),
        norm2(hadamard(scaling_of(x, k))) <= weight(units_of(x)) / 72057594037927936real,
{
    lemma2_to64();
    let u = units_of(x);
    let su = scaled(u, real::half_pow(k));
    let y = scaled(x, Binary32::half_pow(k));
    let rho = scaling_of(x, k);
    assert forall|j: int| 0 <= j < x.len() implies (#[trigger] y[j]).finite() && size(rho[j])
        <= 1real by {
        lemma_scaled_near(x[j], k);
        lemma_normalizing(u[j]);
    }
    lemma_bounded_norm(rho, x.len(), 1real);
    lemma_constant_factors(1real);
    lemma_constant_factors(x.len() as real);
    if k == 3 {
        lemma_block_64(u, u);
    } else {
        lemma_block_256(u, u);
    }
    assert(normalized(u, k) == hadamard(su)) by {
        reveal(normalized);
    }
    lemma_hadamard_inner(su, su, levels);
    lemma_hadamard_inner(rho, rho, levels);
    lemma_constant_factors(norm2(su));
    lemma_constant_factors(norm2(rho));
    lemma_norm(u);
    if k == 3 {
        lemma_multiple(64real, 1real, norm2(su));
        lemma_multiple(64real, 1real, norm2(rho));
        assert(norm2(u) == 64real * norm2(su));
        assert(norm2(hadamard(rho)) == 64real * norm2(rho));
    } else {
        lemma_multiple(256real, 1real, norm2(su));
        lemma_multiple(256real, 1real, norm2(rho));
        assert(norm2(u) == 256real * norm2(su));
        assert(norm2(hadamard(rho)) == 256real * norm2(rho));
    }
}

/// A bound of one part in `2^28`, spelled out.
proof fn lemma_small_part(q: real)
    ensures
        product(product(1real / 268435456real, 1real / 268435456real), q) == q
            / 72057594037927936real,
{
    let e = 1real / 268435456real;
    lemma_multiple(e, 1real, e);
    lemma_constant_factors(e);
    assert(product(e, e) == 1real / 72057594037927936real);
    lemma_multiple(1real / 72057594037927936real, 1real, q);
    lemma_constant_factors(q);
}

/// How much of its weight a block drifts.
pub open spec fn block_drift() -> real {
    81real / 167770000real
}

/// The computed transform of a normalized block is near the exact one.
proof fn lemma_normalized_drift(x: Seq<Binary32>, k: nat, levels: nat)
    requires
        k == 3 && levels == 6 || k == 4 && levels == 8,
        x.len() == pow2(levels),
        all_finite(x),
        4real * weight(units_of(x)) <= limit(),
    ensures
        normalized(x, k).len() == x.len(),
        normalized(units_of(x), k).len() == x.len(),
        all_finite(normalized(x, k)),
        within(
            differences(units_of(normalized(x, k)), normalized(units_of(x), k)),
            block_drift(),
            weight(units_of(x)),
        ),
{
    lemma2_to64();
    reveal(normalized);
    let u = units_of(x);
    let q = weight(u);
    let su = scaled(u, real::half_pow(k));
    let y = scaled(x, Binary32::half_pow(k));
    let uy = units_of(y);
    let rho = scaling_of(x, k);
    let (t, hr) = (hadamard(su), hadamard(rho));
    let e = 1real / 268435456real;
    lemma_scaling_small(x, k, levels);
    lemma_hadamard_len(su, levels);
    lemma_hadamard_len(rho, levels);
    lemma_hadamard_len(uy, levels);
    lemma_hadamard_len(y, levels);
    lemma_norm(u);
    lemma_small_part(q);
    lemma_own_bound(t);
    lemma_weaken(t, 1real, norm2(t), 1real, q);
    assert(uy =~= sums(su, rho));
    lemma_hadamard_linear(su, rho, 0real, levels);
    lemma_triangle(t, hr, 1real, e, q);
    let h = 1real + e;
    assert(within(hadamard(uy), h, q));
    lemma_own_bound(hadamard(uy));
    lemma_weaken(hadamard(uy), h, q, 2real, q);
    lemma_constant_factors(2real);
    lemma_multiple(4real, 1real, q);
    lemma_constant_factors(q);
    law_transform_drift(y, levels);
    let d = differences(units_of(hadamard(y)), hadamard(uy));
    let g = level_drift(levels);
    lemma_compose_bounds(d, norm2(hadamard(uy)), g, h, q);
    lemma_commute(g, h);
    lemma_multiple(h, 1real, g);
    lemma_constant_factors(g);
    lemma_triangle(d, hr, product(g, h), e, q);
    let all = differences(units_of(hadamard(y)), t);
    assert(all =~= sums(d, hr));
    lemma_weaken(all, product(g, h) + e, q, block_drift(), q);
}

/// The computed block transform is near the exact one.
pub proof fn law_blockwise_drift(x: Seq<Binary32>)
    requires
        all_finite(x),
        4real * weight(units_of(x)) <= limit(),
    ensures
        blockwise(x).len() == x.len(),
        all_finite(blockwise(x)),
        within(
            differences(units_of(blockwise(x)), blockwise(units_of(x))),
            block_drift(),
            weight(units_of(x)),
        ),
    decreases x.len(),
{
    lemma2_to64();
    let u = units_of(x);
    let n = x.len() as int;
    lemma_blockwise_len(x);
    lemma_blockwise_len(u);
    lemma_norm(u);
    if n >= 64 {
        let (c, k, levels): (int, nat, nat) = if n >= 256 {
            (256, 4, 8)
        } else {
            (64, 3, 6)
        };
        let (x1, x2) = (x.subrange(0, c), x.subrange(c, n));
        let (u1, u2) = (u.subrange(0, c), u.subrange(c, n));
        assert(units_of(x1) =~= u1);
        assert(units_of(x2) =~= u2);
        lemma_own_bound(u1);
        lemma_own_bound(u2);
        lemma_joined_bound(u1, u2, 1real, norm2(u1), norm2(u2));
        assert(u =~= u1 + u2);
        lemma_norm(u1);
        lemma_norm(u2);
        assert(weight(u) == weight(u1) + weight(u2));
        lemma_normalized_drift(x1, k, levels);
        law_blockwise_drift(x2);
        lemma_blockwise_len(x2);
        lemma_blockwise_len(u2);
        let (y1, y2) = (normalized(x1, k), blockwise(x2));
        let (d1, d2) = (
            differences(units_of(y1), normalized(u1, k)),
            differences(units_of(y2), blockwise(u2)),
        );
        lemma_joined_bound(d1, d2, block_drift(), weight(u1), weight(u2));
        assert(blockwise(x) == y1 + y2);
        assert(blockwise(u) == normalized(u1, k) + blockwise(u2));
        assert(differences(units_of(blockwise(x)), blockwise(u)) =~= d1 + d2);
    } else {
        lemma_nothing(differences(units_of(blockwise(x)), blockwise(u)), block_drift(), weight(u));
    }
}

/// The block transform of a difference, without rounding.
proof fn lemma_blockwise_linear(a: Seq<real>, b: Seq<real>)
    requires
        a.len() == b.len(),
    ensures
        blockwise(differences(a, b)) == differences(blockwise(a), blockwise(b)),
    decreases a.len(),
{
    lemma2_to64();
    let n = a.len() as int;
    let d = differences(a, b);
    lemma_blockwise_len(a);
    lemma_blockwise_len(b);
    if n >= 64 {
        let (c, k, levels): (int, nat, nat) = if n >= 256 {
            (256, 4, 8)
        } else {
            (64, 3, 6)
        };
        let (a1, a2) = (a.subrange(0, c), a.subrange(c, n));
        let (b1, b2) = (b.subrange(0, c), b.subrange(c, n));
        lemma_blockwise_linear(a2, b2);
        lemma_blockwise_len(a2);
        lemma_blockwise_len(b2);
        lemma_normalized_linear(a1, b1, k, levels);
        assert(d.subrange(0, c) =~= differences(a1, b1));
        assert(d.subrange(c, n) =~= differences(a2, b2));
        assert(blockwise(d) =~= differences(blockwise(a), blockwise(b)));
    }
}

/// The normalized transform of a difference, without rounding.
proof fn lemma_normalized_linear(a: Seq<real>, b: Seq<real>, k: nat, levels: nat)
    requires
        a.len() == pow2(levels),
        b.len() == pow2(levels),
    ensures
        normalized(differences(a, b), k) == differences(normalized(a, k), normalized(b, k)),
        normalized(a, k).len() == a.len(),
        normalized(b, k).len() == b.len(),
{
    reveal(normalized);
    let c = real::half_pow(k);
    let (sa, sb) = (scaled(a, c), scaled(b, c));
    let sd = scaled(differences(a, b), c);
    assert forall|j: int| 0 <= j < a.len() implies #[trigger] sd[j] == differences(sa, sb)[j] by {
        lemma_distribute(c, a[j], b[j]);
    }
    assert(sd =~= differences(sa, sb));
    lemma_hadamard_linear(sa, sb, 0real, levels);
    lemma_hadamard_len(sa, levels);
    lemma_hadamard_len(sb, levels);
}

/// Multiplying by a sign is exact.
proof fn lemma_sign_units(s: Binary32, v: Binary32)
    requires
        is_sign(s),
        v.finite(),
    ensures
        s.times(v).finite(),
        s.times(v).units() as real == product(exact_value(s), v.units() as real),
        unit_sign(exact_value(s)),
{
    lemma_sign_exact(s, v);
    lemma_sign_values();
    lemma_constant_factors(v.units() as real);
    assert(v.negated().body() == v.body());
}

/// Swaps that exchange elements of a vector of length `len`, with signs that
/// are one or minus one.
pub open spec fn swaps_fit(swaps: Seq<Swap>, signs: Seq<Binary32>, len: nat) -> bool {
    forall|k: int|
        0 <= k < swaps.len() ==> {
            let s = #[trigger] swaps[k];
            &&& s.i < len && s.i < signs.len() && is_sign(signs[s.i as int])
            &&& s.j < len && s.j < signs.len() && is_sign(signs[s.j as int])
        }
}

/// A computed swap step is the exact one.
proof fn lemma_swap_step_units(x: Seq<Binary32>, s: Swap, signs: Seq<Binary32>)
    requires
        all_finite(x),
        swaps_fit(seq![s], signs, x.len()),
    ensures
        all_finite(swap_step(x, s, signs)),
        all_finite(unswap_step(x, s, signs)),
        units_of(swap_step(x, s, signs)) == swap_step(units_of(x), s, exact_values(signs)),
        units_of(unswap_step(x, s, signs)) == unswap_step(units_of(x), s, exact_values(signs)),
{
    assert(seq![s][0] == s);
    let (i, j) = (s.i as int, s.j as int);
    lemma_sign_units(signs[i], x[i]);
    lemma_sign_units(signs[i], x[j]);
    lemma_sign_units(signs[j], x[i]);
    lemma_sign_units(signs[j], x[j]);
    assert(units_of(swap_step(x, s, signs)) =~= swap_step(units_of(x), s, exact_values(signs)));
    assert(units_of(unswap_step(x, s, signs)) =~= unswap_step(
        units_of(x),
        s,
        exact_values(signs),
    ));
}

/// The computed swaps of a round are the exact ones.
proof fn lemma_swap_pass_units(x: Seq<Binary32>, swaps: Seq<Swap>, signs: Seq<Binary32>)
    requires
        all_finite(x),
        swaps_fit(swaps, signs, x.len()),
    ensures
        swap_pass(x, swaps, signs).len() == x.len(),
        all_finite(swap_pass(x, swaps, signs)),
        units_of(swap_pass(x, swaps, signs)) == swap_pass(units_of(x), swaps, exact_values(signs)),
    decreases swaps.len(),
{
    if swaps.len() > 0 {
        let (rest, s) = (swaps.drop_last(), swaps.last());
        assert(swaps[swaps.len() - 1] == s);
        lemma_swap_pass_units(x, rest, signs);
        lemma_swap_step_units(swap_pass(x, rest, signs), s, signs);
    }
}

/// The computed reversal of the swaps of a round is the exact one.
proof fn lemma_unswap_pass_units(x: Seq<Binary32>, swaps: Seq<Swap>, signs: Seq<Binary32>)
    requires
        all_finite(x),
        swaps_fit(swaps, signs, x.len()),
    ensures
        unswap_pass(x, swaps, signs).len() == x.len(),
        all_finite(unswap_pass(x, swaps, signs)),
        units_of(unswap_pass(x, swaps, signs)) == unswap_pass(
            units_of(x),
            swaps,
            exact_values(signs),
        ),
    decreases swaps.len(),
{
    if swaps.len() > 0 {
        let (rest, s) = (swaps.drop_last(), swaps.last());
        assert(swaps[swaps.len() - 1] == s);
        lemma_swap_step_units(x, s, signs);
        lemma_unswap_pass_units(unswap_step(x, s, signs), rest, signs);
    }
}

/// The swap step of a difference, without rounding.
proof fn lemma_swap_step_linear(a: Seq<real>, b: Seq<real>, s: Swap, signs: Seq<real>)
    requires
        a.len() == b.len(),
        s.i < a.len(),
        s.j < a.len(),
    ensures
        swap_step(differences(a, b), s, signs) == differences(
            swap_step(a, s, signs),
            swap_step(b, s, signs),
        ),
        unswap_step(differences(a, b), s, signs) == differences(
            unswap_step(a, s, signs),
            unswap_step(b, s, signs),
        ),
{
    let (i, j) = (s.i as int, s.j as int);
    lemma_distribute(signs[i], a[i], b[i]);
    lemma_distribute(signs[i], a[j], b[j]);
    lemma_distribute(signs[j], a[i], b[i]);
    lemma_distribute(signs[j], a[j], b[j]);
    let d = differences(a, b);
    assert(swap_step(d, s, signs) =~= differences(swap_step(a, s, signs), swap_step(b, s, signs)));
    assert(unswap_step(d, s, signs) =~= differences(
        unswap_step(a, s, signs),
        unswap_step(b, s, signs),
    ));
}

/// The swaps of a difference, without rounding.
proof fn lemma_swap_pass_linear(a: Seq<real>, b: Seq<real>, swaps: Seq<Swap>, signs: Seq<real>)
    requires
        a.len() == b.len(),
        forall|k: int| 0 <= k < swaps.len() ==> swap_fits(#[trigger] swaps[k], signs, a.len()),
    ensures
        swap_pass(differences(a, b), swaps, signs) == differences(
            swap_pass(a, swaps, signs),
            swap_pass(b, swaps, signs),
        ),
        unswap_pass(differences(a, b), swaps, signs) == differences(
            unswap_pass(a, swaps, signs),
            unswap_pass(b, swaps, signs),
        ),
    decreases swaps.len(),
{
    if swaps.len() > 0 {
        let (rest, s) = (swaps.drop_last(), swaps.last());
        assert(swap_fits(swaps[swaps.len() - 1], signs, a.len()));
        lemma_swap_pass_undone(a, rest, signs);
        lemma_swap_pass_undone(b, rest, signs);
        lemma_swap_pass_linear(a, b, rest, signs);
        lemma_swap_step_linear(swap_pass(a, rest, signs), swap_pass(b, rest, signs), s, signs);
        lemma_swap_step_linear(a, b, s, signs);
        lemma_swap_pass_linear(unswap_step(a, s, signs), unswap_step(b, s, signs), rest, signs);
    }
}

/// The exact swaps of a round fit where the computed ones do.
proof fn lemma_exact_fits(swaps: Seq<Swap>, signs: Seq<Binary32>, len: nat)
    requires
        swaps_fit(swaps, signs, len),
    ensures
        forall|k: int|
            0 <= k < swaps.len() ==> swap_fits(#[trigger] swaps[k], exact_values(signs), len),
{
    lemma_sign_values();
}

/// Reversed swaps keep the norm.
proof fn lemma_unswap_norm(v: Seq<real>, swaps: Seq<Swap>, signs: Seq<real>)
    requires
        forall|k: int| 0 <= k < swaps.len() ==> swap_fits(#[trigger] swaps[k], signs, v.len()),
    ensures
        unswap_pass(v, swaps, signs).len() == v.len(),
        norm2(unswap_pass(v, swaps, signs)) == norm2(v),
{
    lemma_swap_pass_undone(v, swaps, signs);
    let w = unswap_pass(v, swaps, signs);
    lemma_swap_pass_inner(w, w, swaps, signs);
}

/// How much of its weight a round drifts.
pub open spec fn round_drift() -> real {
    819real / 1677700000real
}

/// A vector near another one has about its weight.
proof fn lemma_near_weight(u: Seq<real>, e: Seq<real>, g: real, q: real)
    requires
        u.len() == e.len(),
        g > 0real,
        within(differences(u, e), g, q),
        weight(e) <= q,
    ensures
        weight(u) <= product(product(1real + g, 1real + g), q),
{
    let v = differences(u, e);
    lemma_norm(e);
    lemma_own_bound(e);
    lemma_weaken(e, 1real, norm2(e), 1real, q);
    lemma_inner_bound(e, v, 1real, g, q);
    lemma_norm_of_sum(e, v);
    assert(sums(e, v) =~= u);
    let gg = product(g, g);
    lemma_constant_factors(g);
    lemma_constant_factors(1real);
    lemma_constant_factors(q);
    lemma_sums(1real, g, 1real, g);
    lemma_commute(1real + 2real * g + gg, q);
    lemma_distribute(q, 1real + 2real * g, gg);
    lemma_distribute(q, 1real, 2real * g);
    lemma_scaled_factors(q, g);
    lemma_commute(q, gg);
    lemma_commute(q, g);
    assert(product(1real + g, 1real + g) == 1real + 2real * g + gg);
}

/// The block transform of a computed vector near an exact one.
proof fn lemma_block_step(x: Seq<Binary32>, e: Seq<real>, g: real, q: real)
    requires
        x.len() == e.len(),
        all_finite(x),
        0real < g <= 1real / 100real,
        within(differences(units_of(x), e), g, q),
        weight(e) <= q,
        32real * q <= limit(),
    ensures
        blockwise(x).len() == x.len(),
        blockwise(e).len() == e.len(),
        all_finite(blockwise(x)),
        norm2(blockwise(e)) == norm2(e),
        within(differences(units_of(blockwise(x)), blockwise(e)), g + round_drift(), q),
{
    let u = units_of(x);
    let h = 1real + g;
    lemma_near_weight(u, e, g, q);
    lemma_norm(e);
    let f = 2real;
    lemma_factor_order(h, h, f);
    lemma_factor_order(f, h, f);
    lemma_factor_order(q, product(h, h), product(f, f));
    lemma_constant_factors(f);
    lemma_multiple(4real, 1real, q);
    lemma_constant_factors(q);
    assert(4real * weight(u) <= limit());
    law_blockwise_drift(x);
    let d = differences(units_of(blockwise(x)), blockwise(u));
    let k = block_drift();
    lemma_compose_bounds(d, weight(u), k, h, q);
    lemma_multiple(k, 1real, h);
    lemma_constant_factors(h);
    let v = differences(u, e);
    lemma_blockwise_len(u);
    lemma_blockwise_len(e);
    lemma_blockwise_len(v);
    lemma_blockwise_linear(u, e);
    law_blockwise_orthogonal(v, v);
    law_blockwise_orthogonal(e, e);
    let t = differences(blockwise(u), blockwise(e));
    lemma_triangle(t, d, g, product(k, h), q);
    let all = differences(units_of(blockwise(x)), blockwise(e));
    assert(all =~= sums(t, d));
    lemma_weaken(all, g + product(k, h), q, g + round_drift(), q);
}

/// One computed round of a vector near an exact one.
proof fn lemma_round_step(
    x: Seq<Binary32>,
    e: Seq<real>,
    swaps: Seq<Swap>,
    signs: Seq<Binary32>,
    g: real,
    q: real,
)
    requires
        x.len() == e.len(),
        all_finite(x),
        swaps_fit(swaps, signs, x.len()),
        0real < g <= 1real / 100real,
        within(differences(units_of(x), e), g, q),
        weight(e) <= q,
        32real * q <= limit(),
    ensures
        ({
            let y = blockwise(swap_pass(x, swaps, signs));
            let f = blockwise(swap_pass(e, swaps, exact_values(signs)));
            &&& y.len() == x.len()
            &&& f.len() == e.len()
            &&& all_finite(y)
            &&& norm2(f) == norm2(e)
            &&& within(differences(units_of(y), f), g + round_drift(), q)
        }),
{
    let es = exact_values(signs);
    let u = units_of(x);
    let v = differences(u, e);
    lemma_exact_fits(swaps, signs, x.len());
    lemma_swap_pass_units(x, swaps, signs);
    lemma_swap_pass_undone(e, swaps, es);
    lemma_swap_pass_linear(u, e, swaps, es);
    lemma_swap_pass_inner(v, v, swaps, es);
    lemma_swap_pass_inner(e, e, swaps, es);
    lemma_block_step(swap_pass(x, swaps, signs), swap_pass(e, swaps, es), g, q);
}

/// One computed round undone, of a vector near an exact one.
proof fn lemma_unround_step(
    x: Seq<Binary32>,
    e: Seq<real>,
    swaps: Seq<Swap>,
    signs: Seq<Binary32>,
    g: real,
    q: real,
)
    requires
        x.len() == e.len(),
        all_finite(x),
        swaps_fit(swaps, signs, x.len()),
        0real < g <= 1real / 100real,
        within(differences(units_of(x), e), g, q),
        weight(e) <= q,
        32real * q <= limit(),
    ensures
        ({
            let y = unswap_pass(blockwise(x), swaps, signs);
            let f = unswap_pass(blockwise(e), swaps, exact_values(signs));
            &&& y.len() == x.len()
            &&& f.len() == e.len()
            &&& all_finite(y)
            &&& norm2(f) == norm2(e)
            &&& within(differences(units_of(y), f), g + round_drift(), q)
        }),
{
    let es = exact_values(signs);
    lemma_block_step(x, e, g, q);
    let (b, c) = (blockwise(x), blockwise(e));
    let v = differences(units_of(b), c);
    lemma_exact_fits(swaps, signs, x.len());
    lemma_unswap_pass_units(b, swaps, signs);
    lemma_swap_pass_linear(units_of(b), c, swaps, es);
    lemma_unswap_norm(v, swaps, es);
    lemma_unswap_norm(c, swaps, es);
}

/// The swaps of a round fit.
pub proof fn lemma_plain_round(m: RotationModel<Binary32>, len: nat, r: int)
    requires
        plain_rotation(m, len),
        0 <= r < m.rounds,
    ensures
        swaps_fit(m.swaps[r], m.signs[r], len),
        exact_rotation(m).signs[r] == exact_values(m.signs[r]),
        exact_rotation(m).swaps[r] == m.swaps[r],
{
    assert forall|k: int| 0 <= k < m.swaps[r].len() implies ({
        let s = #[trigger] m.swaps[r][k];
        &&& s.i < len && s.i < m.signs[r].len() && is_sign(m.signs[r][s.i as int])
        &&& s.j < len && s.j < m.signs[r].len() && is_sign(m.signs[r][s.j as int])
    }) by {
        let s = m.swaps[r][k];
        assert(is_sign(m.signs[r][s.i as int]));
        assert(is_sign(m.signs[r][s.j as int]));
    }
}

/// How much of its weight `rounds` rounds drift.
pub open spec fn rounds_drift(rounds: nat) -> real {
    819real * (rounds as real) / 1677700000real
}

/// Computed rounds of a vector near an exact one.
proof fn lemma_forward_drift(
    m: RotationModel<Binary32>,
    x: Seq<Binary32>,
    e: Seq<real>,
    g: real,
    q: real,
    rounds: nat,
)
    requires
        plain_rotation(m, x.len()),
        rounds <= m.rounds,
        x.len() == e.len(),
        all_finite(x),
        0real < g,
        g + rounds_drift(rounds) <= 1real / 100real,
        within(differences(units_of(x), e), g, q),
        weight(e) <= q,
        32real * q <= limit(),
    ensures
        ({
            let y = m.forward(x, rounds);
            let f = exact_rotation(m).forward(e, rounds);
            &&& y.len() == x.len()
            &&& f.len() == e.len()
            &&& all_finite(y)
            &&& norm2(f) == norm2(e)
            &&& within(differences(units_of(y), f), g + rounds_drift(rounds), q)
        }),
    decreases rounds,
{
    if rounds > 0 {
        let r = (rounds - 1) as nat;
        lemma_plain_round(m, x.len(), r as int);
        lemma_forward_drift(m, x, e, g, q, r);
        lemma_round_step(
            m.forward(x, r),
            exact_rotation(m).forward(e, r),
            m.swaps[r as int],
            m.signs[r as int],
            g + rounds_drift(r),
            q,
        );
    }
}

/// Computed rounds undone, of a vector near an exact one.
proof fn lemma_backward_drift(
    m: RotationModel<Binary32>,
    x: Seq<Binary32>,
    e: Seq<real>,
    g: real,
    q: real,
    rounds: nat,
)
    requires
        plain_rotation(m, x.len()),
        rounds <= m.rounds,
        x.len() == e.len(),
        all_finite(x),
        0real < g,
        g + rounds_drift(rounds) <= 1real / 100real,
        within(differences(units_of(x), e), g, q),
        weight(e) <= q,
        32real * q <= limit(),
    ensures
        ({
            let y = m.backward(x, rounds);
            let f = exact_rotation(m).backward(e, rounds);
            &&& y.len() == x.len()
            &&& f.len() == e.len()
            &&& all_finite(y)
            &&& norm2(f) == norm2(e)
            &&& within(differences(units_of(y), f), g + rounds_drift(rounds), q)
        }),
    decreases rounds,
{
    if rounds > 0 {
        let r = (rounds - 1) as nat;
        let (swaps, signs) = (m.swaps[r as int], m.signs[r as int]);
        lemma_plain_round(m, x.len(), r as int);
        lemma_unround_step(x, e, swaps, signs, g, q);
        lemma_backward_drift(
            m,
            unswap_pass(blockwise(x), swaps, signs),
            unswap_pass(blockwise(e), swaps, exact_values(signs)),
            g + round_drift(),
            q,
            r,
        );
    }
}

/// How much of its weight a vector drifts in `rounds` rounds.
pub open spec fn rotation_drift(rounds: nat) -> real {
    (25real / 8real + 819real * (rounds as real)) / 1677700000real
}

/// A vector that a rotation can be computed of without overflow.
pub open spec fn moderate(x: Seq<Binary32>) -> bool {
    all_finite(x) && 32real * weight(units_of(x)) <= limit()
}

/// A computed rotation is near the exact rotation of the same vector: the norm
/// of the difference is at most `rotation_drift` times that of the vector, and
/// a share for each of the smallest numbers.
pub proof fn law_rotation_drift(m: RotationModel<Binary32>, x: Seq<Binary32>)
    requires
        plain_rotation(m, m.dim),
        m.rounds <= 3000,
        moderate(padded(x, m.dim)),
    ensures
        ({
            let u = units_of(padded(x, m.dim));
            let off = differences(units_of(m.rotated(x)), exact_rotation(m).rotated(u));
            &&& m.rotated(x).len() == m.dim
            &&& all_finite(m.rotated(x))
            &&& within(off, rotation_drift(m.rounds), weight(u))
        }),
{
    let p = padded(x, m.dim);
    let u = units_of(p);
    lemma_norm(u);
    let g = rotation_drift(0);
    lemma_nothing(differences(u, u), g, weight(u));
    lemma_forward_drift(m, p, u, g, weight(u), m.rounds);
    assert(padded(u, m.dim) =~= u);
    assert(g + rounds_drift(m.rounds) == rotation_drift(m.rounds));
}

/// A vector that is rotated back, as computed, is near the exact result for the
/// same vector, as with [`law_rotation_drift`].
pub proof fn law_unrotation_drift(m: RotationModel<Binary32>, x: Seq<Binary32>)
    requires
        plain_rotation(m, x.len()),
        m.rounds <= 3000,
        moderate(x),
    ensures
        ({
            let u = units_of(x);
            let off = differences(units_of(m.unrotated(x)), exact_rotation(m).unrotated(u));
            &&& m.unrotated(x).len() == x.len()
            &&& exact_rotation(m).unrotated(u).len() == x.len()
            &&& all_finite(m.unrotated(x))
            &&& within(off, rotation_drift(m.rounds), weight(u))
        }),
{
    let u = units_of(x);
    lemma_norm(u);
    let g = rotation_drift(0);
    lemma_nothing(differences(u, u), g, weight(u));
    lemma_backward_drift(m, x, u, g, weight(u), m.rounds);
    assert(g + rounds_drift(m.rounds) == rotation_drift(m.rounds));
}

/// A vector that is rotated and rotated back, as computed, is near itself,
/// zero-padded to the output dimension: the norm of the difference is at most
/// twice `rotation_drift` times its norm, and a share for each of the smallest
/// numbers.
pub proof fn law_round_trip_drift(m: RotationModel<Binary32>, x: Seq<Binary32>)
    requires
        plain_rotation(m, m.dim),
        m.rounds <= 3000,
        moderate(padded(x, m.dim)),
    ensures
        ({
            let u = units_of(padded(x, m.dim));
            let back = m.unrotated(m.rotated(x));
            &&& back.len() == m.dim
            &&& all_finite(back)
            &&& within(differences(units_of(back), u), 2real * rotation_drift(m.rounds), weight(u))
        }),
{
    let p = padded(x, m.dim);
    let u = units_of(p);
    let e = exact_rotation(m);
    let g = rotation_drift(0);
    lemma_norm(u);
    lemma_nothing(differences(u, u), g, weight(u));
    lemma_forward_drift(m, p, u, g, weight(u), m.rounds);
    let h = g + rounds_drift(m.rounds);
    lemma_backward_drift(m, m.rotated(x), e.forward(u, m.rounds), h, weight(u), m.rounds);
    lemma_plain_signed(m, m.dim);
    lemma_rounds_undone(e, u, m.rounds);
    let back = m.unrotated(m.rotated(x));
    lemma_weaken(
        differences(units_of(back), u),
        h + rounds_drift(m.rounds),
        weight(u),
        2real * rotation_drift(m.rounds),
        weight(u),
    );
}

} // verus!
