//! What zeros do: padding a vector with them, and the distance of the zero code
//! from other codes.

#[allow(unused_imports)]
use crate::arith::Arithmetic;
#[allow(unused_imports)]
use crate::binary32::{body_magnitude, lemma_body_order, Binary32, ONE_BITS};
#[allow(unused_imports)]
use crate::code::{digits, zero_code, Bits, CodeModel};
#[allow(unused_imports)]
use crate::drift::lemma_whole_rounded;
#[allow(unused_imports)]
use crate::encoding::{cut, dot_upto, encoded};
#[allow(unused_imports)]
use crate::estimate::{distance_outcome, estimated, metric_value, Metric};
#[allow(unused_imports)]
use crate::kernels::{inner, law_kernels_agree, sum_of_products};
#[allow(unused_imports)]
use crate::laws::law_rotation_pads;
#[allow(unused_imports)]
use crate::precision::law_rounding_exact;
#[allow(unused_imports)]
use crate::rotation::{padded, RotationModel};
#[allow(unused_imports)]
use crate::rounded::{lemma_round_nothing, lemma_sign_exact, lemma_zero_arithmetic};
use vstd::arithmetic::power2::{
    lemma2_to64, lemma_pow2_adds, lemma_pow2_pos, lemma_pow2_strictly_increases, pow2,
};
use vstd::prelude::*;

verus! {

/// Codes that are all zero have no inner product with others.
proof fn lemma_zero_products(x: Seq<nat>, y: Seq<nat>, n: nat)
    requires
        n <= x.len(),
        n <= y.len(),
        forall|k: int| 0 <= k < x.len() ==> #[trigger] x[k] == 0,
    ensures
        sum_of_products(x, y, n) == 0,
        sum_of_products(y, x, n) == 0,
    decreases n,
{
    if n > 0 {
        lemma_zero_products(x, y, (n - 1) as nat);
        assert(0 * y[n - 1] == 0 && y[n - 1] * 0 == 0);
    }
}

/// The integer dot product with the zero code.
proof fn lemma_zero_inner(dim: nat, bits: Bits, y: CodeModel<Binary32>)
    requires
        zero_code(dim, bits).dimension() == dim,
        y.dimension() == dim,
    ensures
        inner(bits, zero_code(dim, bits).codes, y.bits, y.codes) == 0,
        inner(y.bits, y.codes, bits, zero_code(dim, bits).codes) == 0,
{
    let z = zero_code(dim, bits);
    law_kernels_agree(bits, z.codes, y.bits, y.codes);
    law_kernels_agree(y.bits, y.codes, bits, z.codes);
    lemma_zero_products(digits(bits, z.codes), digits(y.bits, y.codes), dim);
}

/// Dimensions that fit a machine word are finite numbers.
proof fn lemma_finite_dimension(dim: nat)
    requires
        dim <= u64::MAX,
    ensures
        Binary32::of_nat(dim).finite(),
{
    lemma2_to64();
    let u = pow2(149);
    lemma_pow2_adds(64, 149);
    lemma_pow2_strictly_increases(213, 272);
    assert(dim * u <= 0x1_0000_0000_0000_0000 * u) by (nonlinear_arith)
        requires
            dim <= 0x1_0000_0000_0000_0000,
    ;
    lemma_whole_rounded(dim * u);
}

/// Adding or subtracting a zero changes no value.
pub proof fn lemma_add_zero(a: Binary32, z: Binary32)
    requires
        a.finite(),
        z.is_zero(),
    ensures
        a.plus(z).finite(),
        a.minus(z).finite(),
        z.plus(a).finite(),
        a.plus(z).units() == a.units(),
        a.minus(z).units() == a.units(),
        z.plus(a).units() == a.units(),
        !a.is_zero() ==> a.plus(z) == a && a.minus(z) == a && z.plus(a) == a,
        a.is_zero() ==> a.plus(z).is_zero() && a.minus(z).is_zero() && z.plus(a).is_zero(),
{
    assert(z.negated().is_zero());
    law_rounding_exact(a.body());
    if !a.is_zero() {
        lemma_body_order(0, a.body());
    }
}

/// The estimate of an inner product with the zero code is zero.
proof fn lemma_zero_estimate(dim: nat, bits: Bits, y: CodeModel<Binary32>)
    requires
        dim <= u64::MAX,
        zero_code(dim, bits).dimension() == dim,
        y.dimension() == dim,
        finite_code(y),
    ensures
        estimated(dim, zero_code(dim, bits), y).is_zero(),
        Binary32::of_nat(dim).times(y.lower).finite() ==> estimated(
            dim,
            y,
            zero_code(dim, bits),
        ).is_zero(),
{
    let (zero, n) = (Binary32 { bits: 0 }, Binary32::of_nat(dim));
    lemma_zero_inner(dim, bits, y);
    lemma_finite_dimension(dim);
    lemma_finite_dimension(0);
    let ip = Binary32::of_nat(0);
    lemma_zero_product(n, zero);
    lemma_zero_product(n.times(zero), y.lower);
    lemma_zero_product(zero, y.code_sum);
    lemma_zero_product(zero, y.step);
    lemma_zero_product(zero.times(y.step), ip);
    lemma_zero_product(zero, y.lower);
    let z = n.times(zero).times(y.lower);
    let (b, c, d) = (zero.times(y.code_sum), y.lower.times(zero), zero.times(y.step).times(ip));
    lemma_zero_arithmetic(z, b, zero);
    lemma_zero_arithmetic(z.plus(b), c, zero);
    lemma_zero_arithmetic(z.plus(b).plus(c), d, zero);
    if n.times(y.lower).finite() {
        lemma_zero_product(n.times(y.lower), zero);
        lemma_zero_product(y.step.times(zero), ip);
        let z = n.times(y.lower).times(zero);
        let d = y.step.times(zero).times(ip);
        lemma_zero_arithmetic(z, c, zero);
        lemma_zero_arithmetic(z.plus(c), b, zero);
        lemma_zero_arithmetic(z.plus(c).plus(b), d, zero);
    }
}

/// A product with a zero is a zero.
pub proof fn lemma_zero_product(a: Binary32, b: Binary32)
    requires
        a.finite(),
        b.finite(),
        a.is_zero() || b.is_zero(),
    ensures
        a.times(b).is_zero(),
        b.times(a).is_zero(),
{
    lemma_pow2_pos(149);
    lemma_round_nothing(pow2(149));
    assert(a.magnitude() * b.magnitude() == 0 && b.magnitude() * a.magnitude() == 0)
        by (nonlinear_arith)
        requires
            a.magnitude() == 0 || b.magnitude() == 0,
    ;
}

/// All metadata of a code are finite numbers.
pub open spec fn finite_code(c: CodeModel<Binary32>) -> bool {
    c.lower.finite() && c.step.finite() && c.code_sum.finite() && c.norm2.finite()
}

/// The distance that each metric gives for two squared norms and an inner
/// product of zero: one, zero, or the sum of the squared norms.
proof fn lemma_zero_metric(metric: Metric, n: Binary32, dot: Binary32)
    requires
        n.finite(),
        dot.is_zero(),
    ensures
        ({
            let r = metric_value(metric, Binary32 { bits: 0 }, n, dot);
            let s = metric_value(metric, n, Binary32 { bits: 0 }, dot);
            &&& r.finite() && s.finite()
            &&& metric is Cosine ==> r == (Binary32 { bits: ONE_BITS }) && s == r
            &&& metric is Dot ==> r.is_zero() && s.is_zero()
            &&& metric is L2 ==> r.units() == n.units() && s.units() == n.units()
        }),
{
    let (zero, one) = (Binary32 { bits: 0 }, Binary32 { bits: ONE_BITS });
    lemma_units_of_one();
    lemma_add_zero(n, zero);
    let (p, q) = (zero.plus(n), n.plus(zero));
    let two = one.plus(one);
    lemma_add_zero(one, zero);
    if metric is L2 {
        lemma_sign_exact(one, p);
        lemma_sign_exact(one, q);
        lemma_zero_product(two, dot);
        lemma_add_zero(p, zero);
        lemma_add_zero(q, zero);
        lemma_add_zero(p.plus(zero), two.times(dot));
        lemma_add_zero(q.plus(zero), two.times(dot));
    } else {
        lemma_zero_product(zero, p);
        lemma_zero_product(zero, q);
        lemma_zero_product(one, dot);
        let (a, b, t) = (zero.times(p), zero.times(q), one.times(dot));
        if metric is Cosine {
            lemma_add_zero(one, a);
            lemma_add_zero(one, b);
            lemma_add_zero(one, t);
        } else {
            lemma_zero_arithmetic(a, zero, zero);
            lemma_zero_arithmetic(b, zero, zero);
            lemma_zero_arithmetic(a.plus(zero), t, zero);
            lemma_zero_arithmetic(b.plus(zero), t, zero);
        }
    }
}

/// One and zero as numbers, and one plus one.
pub proof fn lemma_units_of_one()
    ensures
        Binary32::of_nat(0) == (Binary32 { bits: 0 }),
        Binary32::of_nat(1) == (Binary32 { bits: ONE_BITS }),
        (Binary32 { bits: ONE_BITS }).finite(),
        !(Binary32 { bits: ONE_BITS }).is_zero(),
        (Binary32 { bits: ONE_BITS }).plus(Binary32 { bits: ONE_BITS }).finite(),
{
    lemma2_to64();
    let one = Binary32 { bits: ONE_BITS };
    lemma_pow2_adds(23, 126);
    lemma_pow2_adds(1, 149);
    assert(one.body() == 0x3f80_0000);
    assert(body_magnitude(0x3f80_0000) == 0x80_0000 * pow2(126));
    law_rounding_exact(0x3f80_0000);
    assert(1 * pow2(149) == pow2(149) && 0 * pow2(149) == 0);
    lemma_round_nothing(1);
    lemma_pow2_strictly_increases(150, 272);
    lemma_whole_rounded(2 * pow2(149));
}

/// The zero code is at distance one from every code under the cosine metric, at
/// distance zero under the dot metric, and as far as the squared norm of the
/// other code under the squared Euclidean metric, whichever of the two comes
/// first; as the second one, where the dimension times the offset of the other
/// does not overflow.
pub proof fn law_zero_distance(
    metric: Metric,
    dim: usize,
    bits: Bits,
    y: CodeModel<Binary32>,
)
    requires
        zero_code(dim as nat, bits).dimension() == dim,
        y.dimension() == dim,
        finite_code(y),
    ensures
        ({
            let z = zero_code(dim as nat, bits);
            let r = distance_outcome(metric, dim, z, y);
            &&& r is Ok
            &&& zero_answer(metric, r->Ok_0, y.norm2)
        }),
        ({
            let z = zero_code(dim as nat, bits);
            let r = distance_outcome(metric, dim, y, z);
            &&& r is Ok
            &&& Binary32::of_nat(dim as nat).times(y.lower).finite() ==> zero_answer(
                metric,
                r->Ok_0,
                y.norm2,
            )
        }),
{
    let z = zero_code(dim as nat, bits);
    lemma_zero_estimate(dim as nat, bits, y);
    lemma_zero_metric(metric, y.norm2, estimated(dim as nat, z, y));
    if Binary32::of_nat(dim as nat).times(y.lower).finite() {
        lemma_zero_metric(metric, y.norm2, estimated(dim as nat, y, z));
    }
}

/// A distance from the zero code to one of the given squared norm.
pub open spec fn zero_answer(metric: Metric, r: Binary32, norm2: Binary32) -> bool {
    match metric {
        Metric::Cosine => r == (Binary32 { bits: ONE_BITS }),
        Metric::Dot => r.is_zero(),
        Metric::L2 => r.finite() && r.units() == norm2.units(),
    }
}

/// A number that is not negative, plus zero, is that number.
proof fn lemma_plus_nothing(a: Binary32)
    requires
        !a.negative(),
        a.nan() ==> a == Binary32::quiet_nan(),
    ensures
        a.plus(Binary32 { bits: 0 }) == a,
{
    if a.finite() {
        lemma_add_zero(a, Binary32 { bits: 0 });
    }
}

/// A sum of squares is not negative, and its NaN is the quiet one.
pub proof fn lemma_squares(x: Seq<Binary32>, n: nat)
    ensures
        !dot_upto(x, x, n).negative(),
        dot_upto(x, x, n).nan() ==> dot_upto(x, x, n) == Binary32::quiet_nan(),
    decreases n,
{
    if n == 0 {
        lemma_units_of_one();
    } else {
        lemma_squares(x, (n - 1) as nat);
        let (s, a) = (dot_upto(x, x, (n - 1) as nat), x[n - 1]);
        lemma_sum_of_positive(s, a.times(a));
        lemma_square_sign(a);
    }
}

/// A square is not negative.
pub proof fn lemma_square_sign(a: Binary32)
    ensures
        !a.times(a).negative(),
{
}

/// A sum of numbers that are not negative is not negative.
proof fn lemma_sum_of_positive(a: Binary32, b: Binary32)
    requires
        !a.negative(),
        a.nan() ==> a == Binary32::quiet_nan(),
        !b.negative(),
    ensures
        !a.plus(b).negative(),
        a.plus(b).nan() ==> a.plus(b) == Binary32::quiet_nan(),
{
}

/// Zeros behind a vector add nothing to the sum of its squares.
proof fn lemma_padded_squares(x: Seq<Binary32>, dim: nat, n: nat)
    requires
        x.len() <= n <= dim,
    ensures
        dot_upto(padded(x, dim), padded(x, dim), n) == dot_upto(x, x, x.len()),
    decreases n,
{
    let p = padded(x, dim);
    if n > x.len() {
        let k = (n - 1) as nat;
        lemma_padded_squares(x, dim, k);
        lemma_units_of_one();
        let zero = Binary32 { bits: 0 };
        assert(p[k as int] == zero);
        lemma_zero_product(zero, zero);
        assert(zero.times(zero) == zero);
        lemma_squares(x, x.len());
        lemma_plus_nothing(dot_upto(x, x, x.len()));
    } else {
        lemma_same_squares(p, x, n);
    }
}

/// Vectors that begin alike have the same sums of squares.
proof fn lemma_same_squares(x: Seq<Binary32>, y: Seq<Binary32>, n: nat)
    requires
        forall|k: int| 0 <= k < n ==> #[trigger] x[k] == y[k],
    ensures
        dot_upto(x, x, n) == dot_upto(y, y, n),
    decreases n,
{
    if n > 0 {
        lemma_same_squares(x, y, (n - 1) as nat);
    }
}

/// A vector has the same code, bit for bit, as the vector cut or zero-padded to
/// the output dimension.
pub proof fn law_encode_pads(m: RotationModel<Binary32>, x: Seq<Binary32>, bits: Bits)
    requires
        x.len() > 0,
        m.dim > 0,
    ensures
        encoded(m, padded(x, m.dim), bits) == encoded(m, x, bits),
        encoded(m, cut(x, m.dim), bits) == encoded(m, x, bits),
{
    let (c, p) = (cut(x, m.dim), padded(x, m.dim));
    assert(padded(c, m.dim) =~= p);
    assert(cut(p, m.dim) =~= p);
    assert(cut(c, m.dim) =~= c);
    law_rotation_pads(m, x);
    law_rotation_pads(m, c);
    lemma_padded_squares(c, m.dim, m.dim);
}

} // verus!
