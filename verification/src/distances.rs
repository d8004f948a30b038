//! How far computed estimates and distances are from the exact ones.

#[allow(unused_imports)]
use crate::accuracy::{code_off, code_values, law_code_near_rotation, one};
#[allow(unused_imports)]
use crate::algebra::{
    lemma_associate, lemma_cancel, lemma_commute, lemma_constant_factors, lemma_distribute,
    lemma_factor_order, lemma_multiple, lemma_positive, lemma_quotient_product, lemma_real_product,
    lemma_scaled_factors, lemma_square, lemma_sums, product, quotient,
};
#[allow(unused_imports)]
use crate::arith::Arithmetic;
#[allow(unused_imports)]
use crate::binary32::{Binary32, ONE_BITS};
#[allow(unused_imports)]
use crate::code::{digits, Bits, CodeModel};
#[allow(unused_imports)]
use crate::drift::{all_finite, units_of};
#[allow(unused_imports)]
use crate::encoding::{
    code_total, cut, degenerate, digits_of, dot_upto, encoded, offset_of, step_of, stored_total,
};
#[allow(unused_imports)]
use crate::estimate::{estimated, metric_value, Metric};
#[allow(unused_imports)]
use crate::exact::{inner_product, law_rotation_orthogonal};
#[allow(unused_imports)]
use crate::hadamard::scaled;
#[allow(unused_imports)]
use crate::kernels::inner;
#[allow(unused_imports)]
use crate::laws::{
    exact_rotation, exact_value, exact_values, law_code_size, law_rotated_dimension,
    lemma_plain_signed, lemma_sign_values, plain_rotation,
};
#[allow(unused_imports)]
use crate::norms::{lemma_inner_of_multiples, lemma_moved_inner, norm2};
#[allow(unused_imports)]
use crate::precision::{law_rounding_nearest, law_rounding_relative};
#[allow(unused_imports)]
use crate::recovery::{law_estimate_is_inner, lemma_totals, size, total};
#[allow(unused_imports)]
use crate::rotation::{padded, RotationModel};
#[allow(unused_imports)]
use crate::rounded::{
    law_codes_kept, lemma_round_nothing, lemma_sign_exact, lemma_zero_arithmetic,
};
#[allow(unused_imports)]
use crate::rounding::{round_body, INFINITY_BODY};
#[allow(unused_imports)]
use crate::scaling::lemma_finite_terms;
#[allow(unused_imports)]
use crate::zeros::{
    lemma_add_zero, lemma_square_sign, lemma_squares, lemma_units_of_one, lemma_zero_product,
};
use vstd::arithmetic::power2::{lemma_pow2_pos, pow2};
use vstd::prelude::*;

verus! {

/// Half of the smallest positive number.
pub open spec fn half_unit() -> real {
    quotient(1real / 2real, pow2(149) as real)
}

/// The value of a number, in units.
pub proof fn lemma_value(a: Binary32)
    ensures
        product(exact_value(a), pow2(149) as real) == a.units() as real,
        product(half_unit(), pow2(149) as real) == 1real / 2real,
        half_unit() >= 0real,
{
    lemma_pow2_pos(149);
    lemma_quotient_product(a.units() as real, pow2(149) as real);
    lemma_quotient_product(1real / 2real, pow2(149) as real);
}

/// The absolute value of a product with a factor that is not negative.
pub proof fn lemma_size_product(a: real, w: real)
    requires
        w >= 0real,
    ensures
        size(product(a, w)) == product(size(a), w),
{
    lemma_scaled_factors(a, w);
    lemma_constant_factors(w);
    if a >= 0real {
        lemma_positive(a, w);
    } else {
        lemma_positive(-a, w);
    }
}

/// The rounding of a product in units.
proof fn lemma_product_units(a: Binary32, b: Binary32)
    requires
        a.times(b).finite(),
    ensures
        a.finite(),
        b.finite(),
        ({
            let e = a.times(b).units() * (pow2(149) as int) - a.units() * b.units();
            let (m, u) = (a.magnitude() * b.magnitude(), pow2(149));
            &&& 0x100_0000 * e <= m + 0x80_0000 * u
            &&& -(0x100_0000 * e) <= m + 0x80_0000 * u
        }),
        a.units() * b.units() == a.magnitude() * b.magnitude() || a.units() * b.units() == -(
        a.magnitude() * b.magnitude()),
{
    lemma_pow2_pos(149);
    let (x, y, u) = (a.magnitude() as int, b.magnitude() as int, pow2(149) as int);
    let m = a.magnitude() * b.magnitude();
    let r = a.times(b);
    assert(a.finite() && b.finite());
    law_rounding_relative(m, pow2(149));
    assert(r.body() == round_body(m, pow2(149)));
    assert(r.negative() == (a.negative() != b.negative()));
    let z = r.magnitude() as int;
    assert((-x) * y == -(x * y) && x * (-y) == -(x * y) && (-x) * (-y) == x * y && (-z) * u == -(z
        * u)) by (nonlinear_arith);
}

/// A computed product is off by at most one part in `2^24`, and half of the
/// smallest number.
proof fn lemma_times_near(a: Binary32, b: Binary32)
    requires
        a.times(b).finite(),
    ensures
        a.finite(),
        b.finite(),
        size(exact_value(a.times(b)) - product(exact_value(a), exact_value(b))) <= size(
            product(exact_value(a), exact_value(b)),
        ) / 16777216real + half_unit(),
{
    lemma_product_units(a, b);
    let r = a.times(b);
    let v = pow2(149) as real;
    let (x, y, z) = (exact_value(a), exact_value(b), exact_value(r));
    lemma_value(a);
    lemma_value(b);
    lemma_value(r);
    lemma_pow2_pos(149);
    let w = product(v, v);
    lemma_positive(v, v);
    let p = product(x, y);
    // All of the inequality, times the square of `v`.
    lemma_associate(x, y, w);
    lemma_associate(y, v, v);
    lemma_commute(product(y, v), v);
    lemma_associate(x, v, product(y, v));
    assert(product(p, w) == product(product(x, v), product(y, v)));
    lemma_int_product(a.units(), b.units());
    lemma_associate(z, v, v);
    lemma_int_product(r.units(), pow2(149) as int);
    let d = z - p;
    lemma_commute(d, w);
    lemma_distribute(w, z, p);
    lemma_commute(z, w);
    lemma_commute(p, w);
    assert(product(d, w) == (r.units() * (pow2(149) as int) - a.units() * b.units()) as real);
    lemma_size_product(d, w);
    lemma_size_product(p, w);
    lemma_associate(half_unit(), v, v);
    lemma_multiple(1real / 2real, 1real, v);
    lemma_constant_factors(v);
    let right = size(p) + 16777216real * half_unit();
    lemma_commute(right, w);
    lemma_distribute(w, size(p), 16777216real * half_unit());
    lemma_commute(w, size(p));
    lemma_commute(w, 16777216real * half_unit());
    lemma_multiple(16777216real, half_unit(), w);
    lemma_multiple(16777216real, size(d), w);
    lemma_cancel(w, 16777216real * size(d), right);
}

/// The product of two integers as a product of reals.
pub proof fn lemma_int_product(a: int, b: int)
    ensures
        (a * b) as real == product(a as real, b as real),
{
    let (x, y) = (
        (if a < 0 {
            -a
        } else {
            a
        }) as nat,
        (if b < 0 {
            -b
        } else {
            b
        }) as nat,
    );
    lemma_real_product(x, y);
    let (p, q) = (x as int, y as int);
    assert((-p) * q == -(p * q) && p * (-q) == -(p * q) && (-p) * (-q) == p * q)
        by (nonlinear_arith);
    lemma_scaled_factors(x as real, y as real);
    lemma_scaled_factors(x as real, -(y as real));
}

/// A computed sum, and a computed difference, are off by at most one part in
/// `2^24`.
proof fn lemma_plus_near(a: Binary32, b: Binary32)
    requires
        a.plus(b).finite(),
    ensures
        a.finite(),
        b.finite(),
        16777216real * size(exact_value(a.plus(b)) - (exact_value(a) + exact_value(b))) <= size(
            exact_value(a) + exact_value(b),
        ),
{
    let r = a.plus(b);
    assert(a.finite() && b.finite());
    let t = a.units() + b.units();
    let n = (if t < 0 {
        -t
    } else {
        t
    }) as nat;
    lemma_round_nothing(1);
    assert(r.body() == round_body(n, 1));
    law_rounding_relative(n, 1);
    assert(0x100_0000 * (r.units() - t) <= n && -(0x100_0000 * (r.units() - t)) <= n);
    let v = pow2(149) as real;
    lemma_pow2_pos(149);
    lemma_value(a);
    lemma_value(b);
    lemma_value(r);
    let (x, y, z) = (exact_value(a), exact_value(b), exact_value(r));
    let (s, d) = (x + y, z - (x + y));
    lemma_commute(s, v);
    lemma_distribute(v, x, y);
    lemma_commute(v, x);
    lemma_commute(v, y);
    lemma_commute(d, v);
    lemma_distribute(v, z, s);
    lemma_commute(v, z);
    lemma_size_product(d, v);
    lemma_size_product(s, v);
    lemma_multiple(16777216real, size(d), v);
    lemma_cancel(v, 16777216real * size(d), size(s));
}

/// The number that is finite and at most `d` away from `e`.
pub open spec fn near(a: Binary32, e: real, d: real) -> bool {
    a.finite() && size(exact_value(a) - e) <= d
}

/// The absolute value of a product.
proof fn lemma_size_of_product(a: real, b: real)
    ensures
        size(product(a, b)) == product(size(a), size(b)),
{
    lemma_size_product(a, size(b));
    if b < 0real {
        lemma_scaled_factors(a, b);
    }
}

/// How far a product moves where its factors move.
proof fn lemma_moved_product(a: real, b: real, ea: real, da: real, eb: real, db: real)
    requires
        size(a - ea) <= da,
        size(b - eb) <= db,
    ensures
        size(product(a, b) - product(ea, eb)) <= product(size(ea), db) + product(size(eb), da)
            + product(da, db),
{
    let (p, q) = (a - ea, b - eb);
    lemma_sums(ea, p, eb, q);
    assert(ea + p == a && eb + q == b);
    lemma_size_of_product(ea, q);
    lemma_size_of_product(p, eb);
    lemma_size_of_product(p, q);
    lemma_factor_order(size(ea), size(q), db);
    lemma_factor_order(size(eb), size(p), da);
    lemma_commute(size(p), size(eb));
    lemma_factor_order(size(p), size(q), db);
    lemma_factor_order(db, size(p), da);
}

/// How far a computed product moves where its factors are near others.
proof fn lemma_near_product(a: Binary32, b: Binary32, ea: real, da: real, eb: real, db: real)
    requires
        a.times(b).finite(),
        near(a, ea, da),
        near(b, eb, db),
    ensures
        ({
            let t = product(size(ea), db) + product(size(eb), da) + product(da, db);
            near(
                a.times(b),
                product(ea, eb),
                t + (product(size(ea), size(eb)) + t) / 16777216real + half_unit(),
            )
        }),
{
    lemma_times_near(a, b);
    lemma_moved_product(exact_value(a), exact_value(b), ea, da, eb, db);
    lemma_size_of_product(ea, eb);
}

/// How far a computed sum moves where its terms are near others.
proof fn lemma_near_sum(a: Binary32, b: Binary32, ea: real, da: real, eb: real, db: real)
    requires
        a.plus(b).finite(),
        near(a, ea, da),
        near(b, eb, db),
    ensures
        near(
            a.plus(b),
            ea + eb,
            da + db + (size(ea) + size(eb) + da + db) / 16777216real,
        ),
{
    lemma_plus_near(a, b);
}

/// A natural number is computed up to one part in `2^24`.
proof fn lemma_near_natural(n: nat)
    requires
        Binary32::of_nat(n).finite(),
    ensures
        near(Binary32::of_nat(n), n as real, n as real / 16777216real),
{
    let r = Binary32::of_nat(n);
    let u = pow2(149);
    let m = n * u;
    assert(r.body() == round_body(m, 1) && !r.negative());
    law_rounding_relative(m, 1);
    lemma_value(r);
    lemma_pow2_pos(149);
    lemma_real_product(n, u);
    let (v, x) = (u as real, exact_value(r));
    let d = x - n as real;
    lemma_commute(d, v);
    lemma_distribute(v, x, n as real);
    lemma_commute(v, x);
    lemma_commute(v, n as real);
    lemma_size_product(d, v);
    lemma_multiple(16777216real, size(d), v);
    lemma_cancel(v, 16777216real * size(d), n as real);
}

/// A number is its own value.
proof fn lemma_near_itself(a: Binary32)
    requires
        a.finite(),
    ensures
        near(a, exact_value(a), 0real),
{
}

/// A code with its metadata as real numbers.
pub open spec fn exact_code(c: CodeModel<Binary32>) -> CodeModel<real> {
    CodeModel {
        lower: exact_value(c.lower),
        step: exact_value(c.step),
        code_sum: exact_value(c.code_sum),
        norm2: exact_value(c.norm2),
        bits: c.bits,
        codes: c.codes,
    }
}

/// The first term of an estimate, as computed.
proof fn lemma_first_term(n: Binary32, x: Binary32, y: Binary32, dim: nat)
    requires
        n == Binary32::of_nat(dim),
        n.times(x).times(y).finite(),
    ensures
        ({
            let e = product(product(dim as real, exact_value(x)), exact_value(y));
            let t = product(half_unit(), size(exact_value(y)));
            &&& x.finite()
            &&& y.finite()
            &&& near(
                n.times(x).times(y),
                e,
                size(e) * (301real / 100real) / 16777216real + (101real / 100real) * t
                    + half_unit(),
            )
        }),
{
    let (c, l, m) = (dim as real, exact_value(x), exact_value(y));
    let h = half_unit();
    lemma_times_near(n.times(x), y);
    lemma_times_near(n, x);
    lemma_value(x);
    lemma_near_natural(dim);
    lemma_near_itself(x);
    lemma_near_itself(y);
    let e1 = product(c, l);
    let z = product(c, size(l));
    lemma_size_of_product(c, l);
    lemma_near_product(n, x, c, c / 16777216real, l, 0real);
    lemma_constant_factors(c);
    lemma_constant_factors(c / 16777216real);
    lemma_commute(size(l), c / 16777216real);
    lemma_multiple(1real / 16777216real, c, size(l));
    let d1 = z / 16777216real + (z + z / 16777216real) / 16777216real + h;
    assert(near(n.times(x), e1, d1));
    lemma_near_product(n.times(x), y, e1, d1, m, 0real);
    lemma_constant_factors(size(e1));
    lemma_constant_factors(d1);
    let q = 33554433real / 281474976710656real;
    assert(d1 == q * z + h);
    lemma_commute(size(m), d1);
    lemma_commute(q * z + h, size(m));
    lemma_distribute(size(m), q * z, h);
    lemma_commute(size(m), q * z);
    lemma_multiple(q, z, size(m));
    lemma_commute(size(m), h);
    lemma_size_of_product(e1, m);
    let a = product(z, size(m));
    lemma_positive(z, size(m));
    lemma_positive(c, size(l));
    lemma_positive(h, size(m));
    assert(size(product(e1, m)) == a);
}

/// The last term of an estimate, as computed.
proof fn lemma_last_term(x: Binary32, y: Binary32, n: Binary32, ip: nat)
    requires
        n == Binary32::of_nat(ip),
        x.times(y).times(n).finite(),
    ensures
        ({
            let e = product(product(exact_value(x), exact_value(y)), ip as real);
            let t = product(half_unit(), ip as real);
            &&& x.finite()
            &&& y.finite()
            &&& near(
                x.times(y).times(n),
                e,
                size(e) * (301real / 100real) / 16777216real + (101real / 100real) * t
                    + half_unit(),
            )
        }),
{
    let (l, m, c) = (exact_value(x), exact_value(y), ip as real);
    let h = half_unit();
    lemma_times_near(x.times(y), n);
    lemma_times_near(x, y);
    lemma_value(x);
    lemma_near_natural(ip);
    let e1 = product(l, m);
    let z = size(e1);
    let d1 = z / 16777216real + h;
    assert(near(x.times(y), e1, d1));
    let k = c / 16777216real;
    lemma_near_product(x.times(y), n, e1, d1, c, k);
    let a = product(z, c);
    lemma_size_of_product(e1, c);
    lemma_positive(z, c);
    lemma_positive(h, c);
    lemma_commute(z, k);
    lemma_multiple(1real / 16777216real, c, z);
    lemma_commute(c, z);
    lemma_commute(d1, k);
    lemma_multiple(1real / 16777216real, c, d1);
    lemma_distribute(c, z / 16777216real, h);
    lemma_commute(c, z / 16777216real);
    lemma_multiple(1real / 16777216real, z, c);
    lemma_commute(c, h);
    assert(product(c, d1) == a / 16777216real + product(h, c));
}

/// What rounding can move of the estimate from two codes of dimension `dim`:
/// seven parts in `2^24` of the terms of the estimate, and what rounding adds
/// to the smallest numbers.
pub open spec fn estimate_rounding(dim: nat, x: CodeModel<real>, y: CodeModel<real>) -> real {
    let ip = inner(x.bits, x.codes, y.bits, y.codes) as real;
    let terms = size(product(product(dim as real, x.lower), y.lower)) + size(
        product(x.lower, y.code_sum),
    ) + size(product(y.lower, x.code_sum)) + size(product(product(x.step, y.step), ip));
    7real * terms / 16777216real + 2real * (4real * half_unit() + product(
        half_unit(),
        size(y.lower),
    ) + product(half_unit(), ip))
}

/// The errors of the terms of an estimate, and of adding them up.
proof fn lemma_added_errors(a: real, b: real, c: real, d: real, h: real, tl: real, ti: real)
    requires
        a >= 0real,
        b >= 0real,
        c >= 0real,
        d >= 0real,
        h >= 0real,
        tl >= 0real,
        ti >= 0real,
    ensures
        ({
            let k = 16777216real;
            let da = a * (301real / 100real) / k + (101real / 100real) * tl + h;
            let db = b / k + h;
            let dc = c / k + h;
            let dd = d * (301real / 100real) / k + (101real / 100real) * ti + h;
            let e1 = da + db + (a + b + da + db) / k;
            let e2 = e1 + dc + (a + b + c + e1 + dc) / k;
            let e3 = e2 + dd + (a + b + c + d + e2 + dd) / k;
            e3 <= 7real * (a + b + c + d) / k + 2real * (4real * h + tl + ti)
        }),
{
}

/// A greater distance is a distance.
proof fn lemma_near_weaken(a: Binary32, e: real, d: real, f: real)
    requires
        near(a, e, d),
        d <= f,
    ensures
        near(a, e, f),
{
}

/// The terms of a finite sum of four are finite.
proof fn lemma_four_finite(a: Binary32, b: Binary32, c: Binary32, d: Binary32)
    requires
        a.plus(b).plus(c).plus(d).finite(),
    ensures
        a.finite(),
        b.finite(),
        c.finite(),
        d.finite(),
        a.plus(b).finite(),
        a.plus(b).plus(c).finite(),
{
    lemma_plus_near(a.plus(b).plus(c), d);
    lemma_plus_near(a.plus(b), c);
    lemma_plus_near(a, b);
}

/// The error of a sum of three numbers that are near others.
proof fn lemma_near_three(
    a: Binary32,
    b: Binary32,
    c: Binary32,
    e: (real, real, real),
    d: (real, real, real),
)
    requires
        a.plus(b).finite(),
        a.plus(b).plus(c).finite(),
        near(a, e.0, d.0),
        near(b, e.1, d.1),
        near(c, e.2, d.2),
    ensures
        ({
            let k = 16777216real;
            let e1 = d.0 + d.1 + (size(e.0) + size(e.1) + d.0 + d.1) / k;
            let e2 = e1 + d.2 + (size(e.0) + size(e.1) + size(e.2) + e1 + d.2) / k;
            near(a.plus(b).plus(c), e.0 + e.1 + e.2, e2)
        }),
{
    let k = 16777216real;
    let e1 = d.0 + d.1 + (size(e.0) + size(e.1) + d.0 + d.1) / k;
    lemma_near_sum(a, b, e.0, d.0, e.1, d.1);
    lemma_near_sum(a.plus(b), c, e.0 + e.1, e1, e.2, d.2);
}

/// The error of a sum of four terms as those of an estimate.
proof fn lemma_near_four(
    a: Binary32,
    b: Binary32,
    c: Binary32,
    d: Binary32,
    e: (real, real, real, real),
    h: real,
    tl: real,
    ti: real,
)
    requires
        a.plus(b).plus(c).plus(d).finite(),
        h >= 0real,
        tl >= 0real,
        ti >= 0real,
        near(a, e.0, size(e.0) * (301real / 100real) / 16777216real + (101real / 100real) * tl + h),
        near(b, e.1, size(e.1) / 16777216real + h),
        near(c, e.2, size(e.2) / 16777216real + h),
        near(d, e.3, size(e.3) * (301real / 100real) / 16777216real + (101real / 100real) * ti + h),
    ensures
        near(
            a.plus(b).plus(c).plus(d),
            e.0 + e.1 + e.2 + e.3,
            7real * (size(e.0) + size(e.1) + size(e.2) + size(e.3)) / 16777216real + 2real * (4real
                * h + tl + ti),
        ),
{
    let k = 16777216real;
    let (sa, sb, sc, sd) = (size(e.0), size(e.1), size(e.2), size(e.3));
    let da = sa * (301real / 100real) / k + (101real / 100real) * tl + h;
    let (db, dc) = (sb / k + h, sc / k + h);
    let dd = sd * (301real / 100real) / k + (101real / 100real) * ti + h;
    lemma_four_finite(a, b, c, d);
    lemma_near_three(a, b, c, (e.0, e.1, e.2), (da, db, dc));
    let e1 = da + db + (sa + sb + da + db) / k;
    let e2 = e1 + dc + (sa + sb + sc + e1 + dc) / k;
    lemma_near_sum(a.plus(b).plus(c), d, e.0 + e.1 + e.2, e2, e.3, dd);
    lemma_added_errors(sa, sb, sc, sd, h, tl, ti);
    lemma_near_weaken(
        a.plus(b).plus(c).plus(d),
        e.0 + e.1 + e.2 + e.3,
        e2 + dd + (size(e.0 + e.1 + e.2) + sd + e2 + dd) / k,
        7real * (sa + sb + sc + sd) / k + 2real * (4real * h + tl + ti),
    );
}

/// The estimate of an inner product is computed from the codes of two vectors
/// up to `estimate_rounding`, where it is finite.
pub proof fn law_estimate_rounding(dim: nat, x: CodeModel<Binary32>, y: CodeModel<Binary32>)
    requires
        estimated(dim, x, y).finite(),
    ensures
        near(
            estimated(dim, x, y),
            estimated(dim, exact_code(x), exact_code(y)),
            estimate_rounding(dim, exact_code(x), exact_code(y)),
        ),
{
    let n = inner(x.bits, x.codes, y.bits, y.codes);
    let ip = Binary32::of_nat(n);
    let a = Binary32::of_nat(dim).times(x.lower).times(y.lower);
    let b = x.lower.times(y.code_sum);
    let c = y.lower.times(x.code_sum);
    let d = x.step.times(y.step).times(ip);
    lemma_four_finite(a, b, c, d);
    lemma_first_term(Binary32::of_nat(dim), x.lower, y.lower, dim);
    lemma_last_term(x.step, y.step, ip, n);
    lemma_times_near(x.lower, y.code_sum);
    lemma_times_near(y.lower, x.code_sum);
    let (ex, ey) = (exact_code(x), exact_code(y));
    let h = half_unit();
    lemma_value(ip);
    lemma_positive(h, size(ey.lower));
    lemma_positive(h, n as real);
    lemma_near_four(
        a,
        b,
        c,
        d,
        (
            product(product(dim as real, ex.lower), ey.lower),
            product(ex.lower, ey.code_sum),
            product(ey.lower, ex.code_sum),
            product(product(ex.step, ey.step), n as real),
        ),
        h,
        product(h, size(ey.lower)),
        product(h, n as real),
    );
}

/// What rounding can move of a distance for two squared norms and an inner
/// product.
pub open spec fn distance_rounding(metric: Metric, p: real, q: real, dot: real) -> real {
    match metric {
        Metric::Cosine => size(1real - dot) / 16777216real,
        Metric::Dot => 0real,
        Metric::L2 => 4real * (size(p + q) + size(2real * dot)) / 16777216real + 2real
            * half_unit(),
    }
}

/// The values of zero, one and two.
proof fn lemma_plain_values()
    ensures
        near(Binary32::of_nat(0), 0real, 0real),
        near(Binary32::of_nat(1), 1real, 0real),
        Binary32::of_nat(0).is_zero(),
        Binary32::of_nat(1).bits == ONE_BITS,
        near(Binary32::of_nat(1).plus(Binary32::of_nat(1)), 2real, 2real / 16777216real),
{
    lemma_units_of_one();
    lemma_near_natural(0);
    lemma_sign_values();
    let one = Binary32::of_nat(1);
    lemma_plus_near(one, one);
}

/// The distance of a metric is computed from two squared norms and an inner
/// product up to `distance_rounding`, where it is finite.
pub proof fn law_distance_rounding(metric: Metric, p: Binary32, q: Binary32, dot: Binary32)
    requires
        metric_value(metric, p, q, dot).finite(),
    ensures
        p.finite(),
        q.finite(),
        dot.finite(),
        near(
            metric_value(metric, p, q, dot),
            metric_value(metric, exact_value(p), exact_value(q), exact_value(dot)),
            distance_rounding(metric, exact_value(p), exact_value(q), exact_value(dot)),
        ),
{
    let (x, y, z) = (exact_value(p), exact_value(q), exact_value(dot));
    lemma_plain_values();
    lemma_constant_factors(x + y);
    lemma_constant_factors(z);
    let (zero, one) = (Binary32::of_nat(0), Binary32::of_nat(1));
    match metric {
        Metric::L2 => {
            lemma_l2_rounding(one, one.plus(one), zero, p, q, dot);
        },
        Metric::Cosine => {
            lemma_one_plus_zero(one, zero);
            lemma_weightless(zero, one, p.plus(q), one, dot);
            lemma_finite_terms(p, q);
            lemma_cosine_rounding(zero.times(p.plus(q)), one, dot);
        },
        Metric::Dot => {
            lemma_one_plus_zero(one, zero);
            lemma_weightless(zero, zero, p.plus(q), one, dot);
            lemma_finite_terms(p, q);
            lemma_dot_rounding(zero.times(p.plus(q)), zero, dot);
        },
    }
}

/// One plus zero is one.
proof fn lemma_one_plus_zero(one: Binary32, zero: Binary32)
    requires
        one.bits == ONE_BITS,
        zero.is_zero(),
    ensures
        one.plus(zero) == one,
{
    lemma_units_of_one();
    lemma_add_zero(one, zero);
}

/// A sum with a weight of zero adds nothing to a distance, and an inner product
/// with a weight of one is that inner product.
proof fn lemma_weightless(
    zero: Binary32,
    cos: Binary32,
    s: Binary32,
    one: Binary32,
    dot: Binary32,
)
    requires
        zero.is_zero(),
        one.bits == ONE_BITS,
        zero.times(s).plus(cos).minus(one.times(dot)).finite(),
    ensures
        s.finite(),
        dot.finite(),
        zero.times(s).is_zero(),
        one.times(dot) == dot,
{
    let (a, t) = (zero.times(s), one.times(dot));
    lemma_finite_terms(a.plus(cos), t);
    lemma_finite_terms(a, cos);
    lemma_weights(zero, s, one, dot);
}

/// A product with zero, and one with one.
proof fn lemma_weights(zero: Binary32, s: Binary32, one: Binary32, dot: Binary32)
    requires
        zero.is_zero(),
        one.bits == ONE_BITS,
        zero.times(s).finite(),
        one.times(dot).finite(),
    ensures
        s.finite(),
        dot.finite(),
        zero.times(s).is_zero(),
        one.times(dot) == dot,
{
    lemma_times_near(zero, s);
    lemma_times_near(one, dot);
    lemma_zero_product(zero, s);
    lemma_sign_exact(one, dot);
}

/// The rounding of a cosine distance.
proof fn lemma_cosine_rounding(a: Binary32, one: Binary32, dot: Binary32)
    requires
        a.is_zero(),
        one.bits == ONE_BITS,
        dot.finite(),
        a.plus(one).minus(dot).finite(),
    ensures
        near(
            a.plus(one).minus(dot),
            1real - exact_value(dot),
            size(1real - exact_value(dot)) / 16777216real,
        ),
{
    lemma_units_of_one();
    lemma_sign_values();
    lemma_add_zero(one, a);
    lemma_negated_value(dot);
    lemma_plus_near(one, dot.negated());
}

/// The rounding of a dot distance: none.
proof fn lemma_dot_rounding(a: Binary32, zero: Binary32, dot: Binary32)
    requires
        a.is_zero(),
        zero.is_zero(),
        dot.finite(),
        a.plus(zero).minus(dot).finite(),
    ensures
        near(a.plus(zero).minus(dot), -exact_value(dot), 0real),
{
    lemma_zero_arithmetic(a, zero, zero);
    let (b, n) = (a.plus(zero), dot.negated());
    assert(n.body() == dot.body());
    lemma_negated_value(dot);
    lemma_add_zero(n, b);
    lemma_same_value(b.plus(n), n);
}

/// The rounding of a squared Euclidean distance.
proof fn lemma_l2_rounding(
    one: Binary32,
    two: Binary32,
    zero: Binary32,
    p: Binary32,
    q: Binary32,
    dot: Binary32,
)
    requires
        one.bits == ONE_BITS,
        near(two, 2real, 2real / 16777216real),
        near(zero, 0real, 0real),
        one.times(p.plus(q)).plus(zero).minus(two.times(dot)).finite(),
    ensures
        p.finite(),
        q.finite(),
        dot.finite(),
        near(
            one.times(p.plus(q)).plus(zero).minus(two.times(dot)),
            exact_value(p) + exact_value(q) - 2real * exact_value(dot),
            4real * (size(exact_value(p) + exact_value(q)) + size(2real * exact_value(dot)))
                / 16777216real + 2real * half_unit(),
        ),
{
    let (s, t) = (p.plus(q), two.times(dot));
    lemma_l2_last(one, zero, s, t);
    lemma_sum_and_double(two, p, q, dot);
    let b = one.times(s).plus(zero);
    lemma_near_l2(
        exact_value(p),
        exact_value(q),
        exact_value(dot),
        exact_value(s),
        exact_value(b),
        exact_value(t),
        exact_value(b.minus(t)),
    );
}

/// The last steps of a squared Euclidean distance.
proof fn lemma_l2_last(one: Binary32, zero: Binary32, s: Binary32, t: Binary32)
    requires
        one.bits == ONE_BITS,
        near(zero, 0real, 0real),
        one.times(s).plus(zero).minus(t).finite(),
    ensures
        s.finite(),
        t.finite(),
        ({
            let b = one.times(s).plus(zero);
            let (v, w, u) = (exact_value(s), exact_value(b), exact_value(t));
            &&& 16777216real * size(w - v) <= size(v)
            &&& 16777216real * size(exact_value(b.minus(t)) - (w - u)) <= size(w - u)
        }),
{
    let a = one.times(s);
    let b = a.plus(zero);
    assert(t.negated().body() == t.body());
    lemma_plus_near(b, t.negated());
    lemma_negated_value(t);
    lemma_plus_near(a, zero);
    lemma_times_near(one, s);
    lemma_sign_exact(one, s);
}

/// The sum of the squared norms, and twice the inner product, as computed.
proof fn lemma_sum_and_double(two: Binary32, p: Binary32, q: Binary32, dot: Binary32)
    requires
        near(two, 2real, 2real / 16777216real),
        p.plus(q).finite(),
        two.times(dot).finite(),
    ensures
        p.finite(),
        q.finite(),
        dot.finite(),
        half_unit() >= 0real,
        16777216real * size(exact_value(p.plus(q)) - (exact_value(p) + exact_value(q))) <= size(
            exact_value(p) + exact_value(q),
        ),
        ({
            let z = exact_value(dot);
            near(
                two.times(dot),
                2real * z,
                2real * size(z) / 16777216real + (2real * size(z) + 2real * size(z) / 16777216real)
                    / 16777216real + half_unit(),
            )
        }),
{
    let z = exact_value(dot);
    lemma_plus_near(p, q);
    lemma_times_near(two, dot);
    lemma_value(dot);
    lemma_near_itself(dot);
    let k = 2real / 16777216real;
    lemma_near_product(two, dot, 2real, k, z, 0real);
    lemma_constant_factors(z);
    lemma_constant_factors(size(z));
    lemma_constant_factors(k);
    lemma_constant_factors(2real);
    lemma_commute(size(z), k);
    lemma_multiple(k, 1real, size(z));
}

/// The rounding of a squared Euclidean distance: `s` is the computed sum of the
/// squared norms, `b` that sum with zero added, `t` twice the inner product and
/// `r` the distance.
proof fn lemma_near_l2(x: real, y: real, z: real, s: real, b: real, t: real, r: real)
    requires
        16777216real * size(s - (x + y)) <= size(x + y),
        16777216real * size(b - s) <= size(s),
        size(t - 2real * z) <= 2real * size(z) / 16777216real + (2real * size(z) + 2real * size(z)
            / 16777216real) / 16777216real + half_unit(),
        16777216real * size(r - (b - t)) <= size(b - t),
        half_unit() >= 0real,
    ensures
        size(r - (x + y - 2real * z)) <= 4real * (size(x + y) + size(2real * z)) / 16777216real
            + 2real * half_unit(),
{
}

/// The value of the opposite number.
proof fn lemma_negated_value(a: Binary32)
    ensures
        exact_value(a.negated()) == -exact_value(a),
{
    lemma_value(a);
    lemma_value(a.negated());
    assert(a.negated().body() == a.body());
    lemma_pow2_pos(149);
    let v = pow2(149) as real;
    let (x, y) = (exact_value(a), exact_value(a.negated()));
    lemma_scaled_factors(x, v);
    lemma_cancel(v, y, -x);
    lemma_cancel(v, -x, y);
}

/// Numbers of the same units have the same value.
proof fn lemma_same_value(a: Binary32, b: Binary32)
    requires
        a.units() == b.units(),
    ensures
        exact_value(a) == exact_value(b),
{
}

/// A code whose sum of codes is exact.
pub open spec fn summed(c: CodeModel<real>) -> CodeModel<real> {
    let d = digits(c.bits, c.codes);
    CodeModel {
        lower: c.lower,
        step: c.step,
        code_sum: product(c.step, total(d, d.len()) as real),
        norm2: c.norm2,
        bits: c.bits,
        codes: c.codes,
    }
}

/// What rounding can move of a stored sum of codes.
pub open spec fn sum_rounding(c: CodeModel<real>) -> real {
    3real * size(summed(c).code_sum) / 16777216real + half_unit()
}

/// A stored sum of codes, as computed.
pub proof fn lemma_near_total(step: Binary32, n: nat)
    requires
        step.times(Binary32::of_nat(n)).finite(),
    ensures
        near(
            step.times(Binary32::of_nat(n)),
            product(exact_value(step), n as real),
            3real * size(product(exact_value(step), n as real)) / 16777216real + half_unit(),
        ),
{
    let (s, c) = (exact_value(step), n as real);
    lemma_times_near(step, Binary32::of_nat(n));
    lemma_near_natural(n);
    lemma_near_itself(step);
    let k = c / 16777216real;
    lemma_near_product(step, Binary32::of_nat(n), s, 0real, c, k);
    lemma_constant_factors(size(c));
    lemma_constant_factors(k);
    lemma_size_of_product(s, c);
    lemma_commute(size(s), k);
    lemma_multiple(1real / 16777216real, c, size(s));
    lemma_commute(c, size(s));
    lemma_positive(size(s), c);
}

/// The stored sum of the codes of a vector is near the exact one.
proof fn lemma_stored_sum(m: RotationModel<Binary32>, x: Seq<Binary32>, bits: Bits)
    requires
        m.well_formed(),
        m.applies_to(m.dim),
        !degenerate(m, x, bits),
        encoded(m, x, bits).code_sum.finite(),
    ensures
        ({
            let c = exact_code(encoded(m, x, bits));
            size(c.code_sum - summed(c).code_sum) <= sum_rounding(c)
        }),
{
    let c = encoded(m, x, bits);
    let rx = m.rotated(cut(x, m.dim));
    let d = digits_of(rx, offset_of(rx), step_of(rx, bits), bits);
    law_rotated_dimension(m, cut(x, m.dim));
    law_codes_kept(m, x, bits);
    lemma_totals(d, d.len());
    let n = code_total(d, d.len());
    assert(stored_total(d, bits) == n);
    lemma_near_total(c.step, n);
}

/// The estimate from codes whose sums are exact.
proof fn lemma_summed_estimate(dim: nat, x: CodeModel<real>, y: CodeModel<real>)
    requires
        size(x.code_sum - summed(x).code_sum) <= sum_rounding(x),
        size(y.code_sum - summed(y).code_sum) <= sum_rounding(y),
    ensures
        size(estimated(dim, x, y) - estimated(dim, summed(x), summed(y))) <= product(
            size(x.lower),
            sum_rounding(y),
        ) + product(size(y.lower), sum_rounding(x)),
{
    let (a, b) = (summed(x).code_sum, summed(y).code_sum);
    lemma_distribute(x.lower, y.code_sum, b);
    lemma_distribute(y.lower, x.code_sum, a);
    lemma_size_of_product(x.lower, y.code_sum - b);
    lemma_size_of_product(y.lower, x.code_sum - a);
    lemma_factor_order(size(x.lower), size(y.code_sum - b), sum_rounding(y));
    lemma_factor_order(size(y.lower), size(x.code_sum - a), sum_rounding(x));
}

/// The vector that a code with an exact sum stands for, in units.
proof fn lemma_summed_values(c: CodeModel<Binary32>)
    ensures
        scaled(summed(exact_code(c)).restored(), one()) == code_values(c),
        summed(exact_code(c)).dimension() == c.dimension(),
{
    let e = summed(exact_code(c));
    let r = e.restored();
    let d = digits(c.bits, c.codes);
    lemma_value(c.lower);
    lemma_value(c.step);
    let v = one();
    let (a, b) = (scaled(r, v), code_values(c));
    assert forall|k: int| 0 <= k < d.len() implies #[trigger] a[k] == b[k] by {
        let n = d[k] as real;
        lemma_distribute(v, e.lower, product(e.step, n));
        lemma_commute(v, e.lower);
        lemma_associate(v, e.step, n);
        lemma_commute(v, e.step);
        lemma_int_product(c.step.units(), d[k] as int);
        assert(c.step.units() * (d[k] as int) == d[k] * (c.step.units() as int))
            by (nonlinear_arith);
    }
    assert(a =~= b);
}

/// The square of the number one, in units.
pub open spec fn square_unit() -> real {
    product(one(), one())
}

/// What rounding can move of an estimate, that of the sums of codes included.
pub open spec fn code_rounding(dim: nat, x: CodeModel<real>, y: CodeModel<real>) -> real {
    estimate_rounding(dim, x, y) + product(size(x.lower), sum_rounding(y)) + product(
        size(y.lower),
        sum_rounding(x),
    )
}

/// The estimate from the codes of two vectors, as computed, against that from
/// codes with exact sums.
proof fn lemma_near_estimate(
    m: RotationModel<Binary32>,
    x: Seq<Binary32>,
    y: Seq<Binary32>,
    bits: (Bits, Bits),
)
    requires
        m.well_formed(),
        m.applies_to(m.dim),
        !degenerate(m, x, bits.0),
        !degenerate(m, y, bits.1),
        estimated(m.dim, encoded(m, x, bits.0), encoded(m, y, bits.1)).finite(),
    ensures
        ({
            let (cx, cy) = (encoded(m, x, bits.0), encoded(m, y, bits.1));
            let (ex, ey) = (exact_code(cx), exact_code(cy));
            near(
                estimated(m.dim, cx, cy),
                estimated(m.dim, summed(ex), summed(ey)),
                code_rounding(m.dim, ex, ey),
            )
        }),
{
    let (cx, cy) = (encoded(m, x, bits.0), encoded(m, y, bits.1));
    lemma_sums_finite(m.dim, cx, cy);
    law_estimate_rounding(m.dim, cx, cy);
    lemma_stored_sum(m, x, bits.0);
    lemma_stored_sum(m, y, bits.1);
    lemma_summed_estimate(m.dim, exact_code(cx), exact_code(cy));
}

/// The estimate from codes with exact sums is the inner product of the exact
/// values of the codes.
proof fn lemma_summed_inner(dim: nat, cx: CodeModel<Binary32>, cy: CodeModel<Binary32>)
    requires
        cx.dimension() == dim,
        cy.dimension() == dim,
    ensures
        product(
            square_unit(),
            estimated(dim, summed(exact_code(cx)), summed(exact_code(cy))),
        ) == inner_product(code_values(cx), code_values(cy)),
{
    let (sx, sy) = (summed(exact_code(cx)), summed(exact_code(cy)));
    lemma_summed_values(cx);
    lemma_summed_values(cy);
    law_estimate_is_inner(dim, sx, sy);
    lemma_inner_of_multiples(sx.restored(), sy.restored(), one(), one());
}

/// The inner product of the exact values of the codes of two vectors against
/// that of the vectors.
proof fn lemma_values_inner(
    m: RotationModel<Binary32>,
    x: Seq<Binary32>,
    y: Seq<Binary32>,
    bits: (Bits, Bits),
    nx: real,
    ny: real,
    root: real,
)
    requires
        m.well_formed(),
        plain_rotation(m, m.dim),
        m.rounds <= 3000,
        m.dim <= u32::MAX,
        x.len() > 0,
        y.len() > 0,
        all_finite(padded(x, m.dim)),
        all_finite(padded(y, m.dim)),
        0real <= nx <= pow2(264) as real,
        0real <= ny <= pow2(264) as real,
        norm2(units_of(padded(x, m.dim))) <= product(nx, nx),
        norm2(units_of(padded(y, m.dim))) <= product(ny, ny),
        0x80_0000 <= encoded(m, x, bits.0).step.body() < INFINITY_BODY,
        0x80_0000 <= encoded(m, y, bits.1).step.body() < INFINITY_BODY,
        root >= 0real,
        product(root, root) == m.dim as real,
    ensures
        ({
            let (cx, cy) = (encoded(m, x, bits.0), encoded(m, y, bits.1));
            let (dx, dy) = (code_off(cx, nx, root, m.rounds), code_off(cy, ny, root, m.rounds));
            let dot = inner_product(units_of(padded(x, m.dim)), units_of(padded(y, m.dim)));
            size(inner_product(code_values(cx), code_values(cy)) - dot) <= product(nx, dy)
                + product(ny, dx) + product(dx, dy)
        }),
{
    let (cx, cy) = (encoded(m, x, bits.0), encoded(m, y, bits.1));
    law_code_near_rotation(m, x, bits.0, nx, root);
    law_code_near_rotation(m, y, bits.1, ny, root);
    let (ux, uy) = (units_of(padded(x, m.dim)), units_of(padded(y, m.dim)));
    let r = exact_rotation(m);
    lemma_plain_signed(m, m.dim);
    law_rotation_orthogonal(r, ux, ux);
    law_rotation_orthogonal(r, uy, uy);
    law_rotation_orthogonal(r, ux, uy);
    let (dx, dy) = (code_off(cx, nx, root, m.rounds), code_off(cy, ny, root, m.rounds));
    lemma_moved_inner(
        r.rotated(ux),
        r.rotated(uy),
        code_values(cx),
        code_values(cy),
        (nx, ny),
        (dx, dy),
    );
}

/// The distance of a number from another, in units of products.
pub proof fn lemma_scaled_near(a: Binary32, e: real, d: real)
    requires
        near(a, e, d),
    ensures
        size(product(square_unit(), exact_value(a)) - product(square_unit(), e)) <= product(
            square_unit(),
            d,
        ),
{
    let (w, off) = (square_unit(), exact_value(a) - e);
    lemma_pow2_pos(149);
    lemma_positive(one(), one());
    lemma_distribute(w, exact_value(a), e);
    lemma_size_product(off, w);
    lemma_commute(off, w);
    lemma_commute(size(off), w);
    lemma_factor_order(w, size(off), d);
}

/// How far an estimate can be from the inner product of two vectors, in units,
/// where `nx` and `ny` bound their norms and the square of `root` is the
/// dimension.
pub open spec fn estimate_bound(
    dim: nat,
    cx: CodeModel<Binary32>,
    cy: CodeModel<Binary32>,
    nx: real,
    ny: real,
    root: real,
    rounds: nat,
) -> real {
    let (dx, dy) = (code_off(cx, nx, root, rounds), code_off(cy, ny, root, rounds));
    product(square_unit(), code_rounding(dim, exact_code(cx), exact_code(cy))) + product(nx, dy)
        + product(ny, dx) + product(dx, dy)
}

/// The estimate from the codes of two vectors, as computed, is near the inner
/// product of the vectors themselves, in units: off by the rounding of the
/// formula and of the two sums of codes, and by what the steps and the drift of
/// the rotation can move an inner product. `nx` and `ny` bound the norms, and
/// the square of `root` is the dimension; the steps are normal numbers and the
/// estimate is finite.
pub proof fn law_estimate_close(
    m: RotationModel<Binary32>,
    x: Seq<Binary32>,
    y: Seq<Binary32>,
    bits: (Bits, Bits),
    nx: real,
    ny: real,
    root: real,
)
    requires
        m.well_formed(),
        plain_rotation(m, m.dim),
        m.rounds <= 3000,
        m.dim <= u32::MAX,
        x.len() > 0,
        y.len() > 0,
        all_finite(padded(x, m.dim)),
        all_finite(padded(y, m.dim)),
        0real <= nx <= pow2(264) as real,
        0real <= ny <= pow2(264) as real,
        norm2(units_of(padded(x, m.dim))) <= product(nx, nx),
        norm2(units_of(padded(y, m.dim))) <= product(ny, ny),
        0x80_0000 <= encoded(m, x, bits.0).step.body() < INFINITY_BODY,
        0x80_0000 <= encoded(m, y, bits.1).step.body() < INFINITY_BODY,
        root >= 0real,
        product(root, root) == m.dim as real,
        estimated(m.dim, encoded(m, x, bits.0), encoded(m, y, bits.1)).finite(),
    ensures
        ({
            let (cx, cy) = (encoded(m, x, bits.0), encoded(m, y, bits.1));
            let dot = inner_product(units_of(padded(x, m.dim)), units_of(padded(y, m.dim)));
            size(product(square_unit(), exact_value(estimated(m.dim, cx, cy))) - dot)
                <= estimate_bound(m.dim, cx, cy, nx, ny, root, m.rounds)
        }),
{
    let (cx, cy) = (encoded(m, x, bits.0), encoded(m, y, bits.1));
    let (ex, ey) = (exact_code(cx), exact_code(cy));
    lemma_normal_code(m, x, bits.0);
    lemma_normal_code(m, y, bits.1);
    lemma_near_estimate(m, x, y, bits);
    law_code_size(m, x, bits.0);
    law_code_size(m, y, bits.1);
    lemma_summed_inner(m.dim, cx, cy);
    lemma_values_inner(m, x, y, bits, nx, ny, root);
    lemma_scaled_near(
        estimated(m.dim, cx, cy),
        estimated(m.dim, summed(ex), summed(ey)),
        code_rounding(m.dim, ex, ey),
    );
}

/// A code whose step is a normal number is a code of its own.
proof fn lemma_normal_code(m: RotationModel<Binary32>, x: Seq<Binary32>, bits: Bits)
    requires
        0x80_0000 <= encoded(m, x, bits).step.body() < INFINITY_BODY,
    ensures
        !degenerate(m, x, bits),
{
}

/// The inner product of two vectors, in units.
pub proof fn lemma_dot_units(p: Seq<Binary32>, q: Seq<Binary32>)
    requires
        p.len() == q.len(),
    ensures
        product(square_unit(), inner_product(exact_values(p), exact_values(q))) == inner_product(
            units_of(p),
            units_of(q),
        ),
{
    let (x, y, v) = (exact_values(p), exact_values(q), one());
    assert forall|k: int| 0 <= k < p.len() implies #[trigger] scaled(x, v)[k] == units_of(p)[k] by {
        lemma_value(p[k]);
        lemma_commute(v, x[k]);
    }
    assert forall|k: int| 0 <= k < q.len() implies #[trigger] scaled(y, v)[k] == units_of(q)[k] by {
        lemma_value(q[k]);
        lemma_commute(v, y[k]);
    }
    assert(scaled(x, v) =~= units_of(p));
    assert(scaled(y, v) =~= units_of(q));
    lemma_inner_of_multiples(x, y, v, v);
}

/// How far a distance moves where the inner product moves, in units of
/// products.
proof fn lemma_moved_distance(metric: Metric, p: real, q: real, a: real, b: real, d: real)
    requires
        size(product(square_unit(), a) - product(square_unit(), b)) <= d,
    ensures
        size(
            product(square_unit(), metric_value(metric, p, q, a)) - product(
                square_unit(),
                metric_value(metric, p, q, b),
            ),
        ) <= if metric is L2 {
            2real * d
        } else {
            d
        },
{
    let w = square_unit();
    lemma_constant_factors(p + q);
    lemma_constant_factors(a);
    lemma_constant_factors(b);
    let (x, y) = (metric_value(metric, p, q, a), metric_value(metric, p, q, b));
    lemma_distribute(w, x, y);
    lemma_distribute(w, a, b);
    let t = a - b;
    lemma_scaled_factors(w, t);
    lemma_scaled_factors(w, 2real * t);
}

/// The distance between the codes of two vectors, as computed, is near the one
/// that their inner product and the stored squared norms give, in units: off by
/// the rounding of the formula and by the bound of the estimate, twice that for
/// the squared Euclidean distance. The premises are those of
/// [`law_estimate_close`].
pub proof fn law_distance_close(
    metric: Metric,
    m: RotationModel<Binary32>,
    x: Seq<Binary32>,
    y: Seq<Binary32>,
    bits: (Bits, Bits),
    nx: real,
    ny: real,
    root: real,
)
    requires
        m.well_formed(),
        plain_rotation(m, m.dim),
        m.rounds <= 3000,
        m.dim <= u32::MAX,
        x.len() > 0,
        y.len() > 0,
        all_finite(padded(x, m.dim)),
        all_finite(padded(y, m.dim)),
        0real <= nx <= pow2(264) as real,
        0real <= ny <= pow2(264) as real,
        norm2(units_of(padded(x, m.dim))) <= product(nx, nx),
        norm2(units_of(padded(y, m.dim))) <= product(ny, ny),
        0x80_0000 <= encoded(m, x, bits.0).step.body() < INFINITY_BODY,
        0x80_0000 <= encoded(m, y, bits.1).step.body() < INFINITY_BODY,
        root >= 0real,
        product(root, root) == m.dim as real,
        ({
            let (cx, cy) = (encoded(m, x, bits.0), encoded(m, y, bits.1));
            metric_value(metric, cx.norm2, cy.norm2, estimated(m.dim, cx, cy)).finite()
        }),
    ensures
        ({
            let (cx, cy) = (encoded(m, x, bits.0), encoded(m, y, bits.1));
            let e = estimated(m.dim, cx, cy);
            let r = metric_value(metric, cx.norm2, cy.norm2, e);
            let (p, q) = (exact_value(cx.norm2), exact_value(cy.norm2));
            let dot = inner_product(
                exact_values(padded(x, m.dim)),
                exact_values(padded(y, m.dim)),
            );
            let b = estimate_bound(m.dim, cx, cy, nx, ny, root, m.rounds);
            size(
                product(square_unit(), exact_value(r)) - product(
                    square_unit(),
                    metric_value(metric, p, q, dot),
                ),
            ) <= product(square_unit(), distance_rounding(metric, p, q, exact_value(e)))
                + if metric is L2 {
                2real * b
            } else {
                b
            }
        }),
{
    let (cx, cy) = (encoded(m, x, bits.0), encoded(m, y, bits.1));
    let e = estimated(m.dim, cx, cy);
    let (p, q) = (exact_value(cx.norm2), exact_value(cy.norm2));
    let dot = inner_product(exact_values(padded(x, m.dim)), exact_values(padded(y, m.dim)));
    law_distance_rounding(metric, cx.norm2, cy.norm2, e);
    law_estimate_close(m, x, y, bits, nx, ny, root);
    lemma_dot_units(padded(x, m.dim), padded(y, m.dim));
    lemma_moved_distance(
        metric,
        p,
        q,
        exact_value(e),
        dot,
        estimate_bound(m.dim, cx, cy, nx, ny, root, m.rounds),
    );
    lemma_scaled_near(
        metric_value(metric, cx.norm2, cy.norm2, e),
        metric_value(metric, p, q, exact_value(e)),
        distance_rounding(metric, p, q, exact_value(e)),
    );
}

/// The errors of adding one more square to a sum of at most 100 thousand
/// squares: `s` is the sum, `t` the square, `p` the sum times the number of its
/// terms and one, `z` the number of its terms times `h`, `e` the error of the
/// sum, and `d` that of the square.
proof fn lemma_added_square(s: real, t: real, p: real, z: real, h: real, e: real, d: real)
    requires
        s >= 0real,
        t >= 0real,
        h >= 0real,
        0real <= p <= 100000real * s,
        0real <= z <= 100000real * h,
        e <= 102real * p / 1677721600real + 2real * z,
        d <= t / 16777216real + h,
    ensures
        e + d + (s + t + e + d) / 16777216real <= 102real * (p + s + 2real * t) / 1677721600real
            + 2real * (z + h),
{
}

/// The same for a sum of up to `2^23` squares, with greater factors.
proof fn lemma_added_far_square(s: real, t: real, p: real, z: real, h: real, e: real, d: real)
    requires
        s >= 0real,
        t >= 0real,
        h >= 0real,
        0real <= p <= 8388608real * s,
        0real <= z <= 8388608real * h,
        e <= 2real * p / 16777216real + 4real * z,
        d <= t / 16777216real + h,
    ensures
        e + d + (s + t + e + d) / 16777216real <= 2real * (p + s + 2real * t) / 16777216real + 4real
            * (z + h),
{
}

/// One more term in a sum times the number of its terms and one, and in that
/// number times `h`.
proof fn lemma_one_more(k: nat, s: real, t: real, h: real, limit: nat)
    requires
        k + 1 <= limit,
        s >= 0real,
        t >= 0real,
        h >= 0real,
    ensures
        0real <= product((k + 1) as real, s) <= limit as real * s,
        0real <= product(k as real, h) <= limit as real * h,
        product((k + 2) as real, s + t) >= product((k + 1) as real, s) + s + 2real * t,
        product((k + 1) as real, h) == product(k as real, h) + h,
{
    let (b, c, l) = (k as real, (k + 1) as real, limit as real);
    lemma_factor_order(s, c, l);
    lemma_multiple(l, 1real, s);
    lemma_constant_factors(s);
    lemma_positive(c, s);
    lemma_factor_order(h, b, l);
    lemma_multiple(l, 1real, h);
    lemma_constant_factors(h);
    lemma_positive(b, h);
    assert((k + 2) as real == c + 1real && c == b + 1real);
    lemma_commute(c + 1real, s + t);
    lemma_distribute(s + t, c, 1real);
    lemma_commute(s + t, c);
    lemma_distribute(c, s, t);
    lemma_constant_factors(s + t);
    lemma_factor_order(t, 1real, c);
    lemma_constant_factors(t);
    lemma_commute(b + 1real, h);
    lemma_distribute(h, b, 1real);
    lemma_commute(h, b);
}

/// The exact sum of the first `n` squares.
pub open spec fn exact_squares(x: Seq<Binary32>, n: nat) -> real {
    dot_upto(exact_values(x), exact_values(x), n)
}

/// One more square in a sum of squares, as computed: the sums are finite, and
/// the square is near the exact one.
pub proof fn lemma_next_square(x: Seq<Binary32>, n: nat)
    requires
        0 < n <= x.len(),
        dot_upto(x, x, n).finite(),
    ensures
        ({
            let k = (n - 1) as nat;
            let a = x[n - 1];
            let t = product(exact_value(a), exact_value(a));
            &&& dot_upto(x, x, k).finite()
            &&& t >= 0real
            &&& near(a.times(a), t, t / 16777216real + half_unit())
            &&& exact_squares(x, n) == exact_squares(x, k) + t
            &&& half_unit() >= 0real
        }),
{
    let a = x[n - 1];
    lemma_plus_near(dot_upto(x, x, (n - 1) as nat), a.times(a));
    lemma_times_near(a, a);
    lemma_square(exact_value(a));
    lemma_value(a);
}

/// No squares add up to nothing.
proof fn lemma_no_squares(x: Seq<Binary32>, d: real)
    requires
        d >= 0real,
    ensures
        exact_squares(x, 0) == 0real,
        near(dot_upto(x, x, 0), 0real, d),
{
    lemma_plain_values();
}

/// The squared norm of up to 100 thousand numbers is computed up to a bit more
/// than one part in `2^24` for each of them and one more, and twice what
/// rounding adds to the smallest numbers for each.
pub proof fn law_short_norm_rounding(x: Seq<Binary32>, n: nat)
    requires
        n <= x.len(),
        n <= 100_000,
        dot_upto(x, x, n).finite(),
    ensures
        exact_squares(x, n) >= 0real,
        near(
            dot_upto(x, x, n),
            exact_squares(x, n),
            102real * product((n + 1) as real, exact_squares(x, n)) / 1677721600real + 2real
                * product(n as real, half_unit()),
        ),
    decreases n,
{
    let h = half_unit();
    lemma_constant_factors(h);
    lemma_constant_factors(1real);
    if n == 0 {
        lemma_no_squares(x, 0real);
    } else {
        let k = (n - 1) as nat;
        let (a, s) = (x[n - 1], exact_squares(x, k));
        let t = product(exact_value(a), exact_value(a));
        lemma_next_square(x, n);
        law_short_norm_rounding(x, k);
        lemma_one_more(k, s, t, h, 100_000);
        let (p, z) = (product((k + 1) as real, s), product(k as real, h));
        let e = 102real * p / 1677721600real + 2real * z;
        let d = t / 16777216real + h;
        lemma_near_sum(dot_upto(x, x, k), a.times(a), s, e, t, d);
        lemma_added_square(s, t, p, z, h, e, d);
        lemma_near_weaken(
            dot_upto(x, x, n),
            s + t,
            e + d + (size(s) + size(t) + e + d) / 16777216real,
            102real * product((n + 1) as real, s + t) / 1677721600real + 2real * product(
                n as real,
                h,
            ),
        );
    }
}

/// The squared norm of up to `2^23` numbers.
proof fn lemma_far_norm_rounding(x: Seq<Binary32>, n: nat)
    requires
        n <= x.len(),
        n <= 0x80_0000,
        dot_upto(x, x, n).finite(),
    ensures
        exact_squares(x, n) >= 0real,
        near(
            dot_upto(x, x, n),
            exact_squares(x, n),
            2real * product((n + 1) as real, exact_squares(x, n)) / 16777216real + 4real * product(
                n as real,
                half_unit(),
            ),
        ),
    decreases n,
{
    let h = half_unit();
    lemma_constant_factors(h);
    lemma_constant_factors(1real);
    if n == 0 {
        lemma_no_squares(x, 0real);
    } else {
        let k = (n - 1) as nat;
        let (a, s) = (x[n - 1], exact_squares(x, k));
        let t = product(exact_value(a), exact_value(a));
        lemma_next_square(x, n);
        lemma_far_norm_rounding(x, k);
        lemma_one_more(k, s, t, h, 0x80_0000);
        let (p, z) = (product((k + 1) as real, s), product(k as real, h));
        let e = 2real * p / 16777216real + 4real * z;
        let d = t / 16777216real + h;
        lemma_near_sum(dot_upto(x, x, k), a.times(a), s, e, t, d);
        lemma_added_far_square(s, t, p, z, h, e, d);
        lemma_near_weaken(
            dot_upto(x, x, n),
            s + t,
            e + d + (size(s) + size(t) + e + d) / 16777216real,
            2real * product((n + 1) as real, s + t) / 16777216real + 4real * product(n as real, h),
        );
    }
}

/// A computed sum of numbers that are not negative is off by at most the second
/// of them: the first is a number of the format itself.
proof fn lemma_absorbed(a: Binary32, b: Binary32)
    requires
        a.plus(b).finite(),
        !a.negative(),
        !b.negative(),
    ensures
        size(exact_value(a.plus(b)) - (exact_value(a) + exact_value(b))) <= exact_value(b),
        exact_value(b) >= 0real,
{
    let r = a.plus(b);
    lemma_plus_near(a, b);
    let (x, y) = (a.magnitude(), b.magnitude());
    lemma_round_nothing(1);
    assert(r.body() == round_body(x + y, 1) && !r.negative());
    law_rounding_nearest(x + y, 1, a.body());
    assert(r.units() - (x + y) <= y && (x + y) - r.units() <= y);
    let v = pow2(149) as real;
    lemma_pow2_pos(149);
    lemma_value(a);
    lemma_value(b);
    lemma_value(r);
    let (p, q, z) = (exact_value(a), exact_value(b), exact_value(r));
    let (s, d) = (p + q, z - (p + q));
    lemma_commute(s, v);
    lemma_distribute(v, p, q);
    lemma_commute(v, p);
    lemma_commute(v, q);
    lemma_commute(d, v);
    lemma_distribute(v, z, s);
    lemma_commute(v, z);
    lemma_size_product(d, v);
    lemma_cancel(v, size(d), q);
    lemma_constant_factors(v);
    lemma_cancel(v, 0real, q);
}

/// The squared norm of any count of numbers is computed up to itself, two parts
/// in `2^24` of it, and twice what rounding adds to the smallest numbers for
/// each: adding a number never moves the sum by more than twice that number.
pub proof fn law_long_norm_rounding(x: Seq<Binary32>, n: nat)
    requires
        n <= x.len(),
        dot_upto(x, x, n).finite(),
    ensures
        exact_squares(x, n) >= 0real,
        near(
            dot_upto(x, x, n),
            exact_squares(x, n),
            exact_squares(x, n) + 2real * exact_squares(x, n) / 16777216real + 2real * product(
                n as real,
                half_unit(),
            ),
        ),
    decreases n,
{
    let h = half_unit();
    lemma_constant_factors(h);
    if n == 0 {
        lemma_no_squares(x, 0real);
    } else {
        let k = (n - 1) as nat;
        let (a, s) = (x[n - 1], exact_squares(x, k));
        lemma_next_square(x, n);
        law_long_norm_rounding(x, k);
        lemma_squares(x, k);
        lemma_square_sign(a);
        lemma_absorbed(dot_upto(x, x, k), a.times(a));
        lemma_one_more(k, s, 0real, h, k + 1);
    }
}

/// The squared norm of any count of numbers is computed up to two parts in
/// `2^24` for each of them and one more, and four times what rounding adds to
/// the smallest numbers for each.
pub proof fn law_norm_rounding(x: Seq<Binary32>, n: nat)
    requires
        n <= x.len(),
        dot_upto(x, x, n).finite(),
    ensures
        exact_squares(x, n) >= 0real,
        near(
            dot_upto(x, x, n),
            exact_squares(x, n),
            2real * product((n + 1) as real, exact_squares(x, n)) / 16777216real + 4real * product(
                n as real,
                half_unit(),
            ),
        ),
{
    if n <= 0x80_0000 {
        lemma_far_norm_rounding(x, n);
    } else {
        law_long_norm_rounding(x, n);
        let (s, h) = (exact_squares(x, n), half_unit());
        lemma_value(x[0]);
        lemma_factor_order(s, 8388609real, (n + 1) as real);
        lemma_multiple(8388609real, 1real, s);
        lemma_constant_factors(s);
        lemma_positive(n as real, h);
    }
}

/// The sums of codes are finite where the estimate is.
proof fn lemma_sums_finite(dim: nat, x: CodeModel<Binary32>, y: CodeModel<Binary32>)
    requires
        estimated(dim, x, y).finite(),
    ensures
        x.code_sum.finite(),
        y.code_sum.finite(),
{
    let ip = Binary32::of_nat(inner(x.bits, x.codes, y.bits, y.codes));
    let a = Binary32::of_nat(dim).times(x.lower).times(y.lower);
    let b = x.lower.times(y.code_sum);
    let c = y.lower.times(x.code_sum);
    lemma_four_finite(a, b, c, x.step.times(y.step).times(ip));
    lemma_times_near(x.lower, y.code_sum);
    lemma_times_near(y.lower, x.code_sum);
}

} // verus!
