//! What the operations of a quantizer return, in terms of the vectors and codes
//! that they are given.
//!
//! The laws of this module speak of the entries of vectors, the bytes of codes
//! and the numbers that bit patterns stand for, in units of `2^-149`; sums are
//! exact.

#[allow(unused_imports)]
use crate::accuracy::{
    coordinate_bound, decoded_bound, drifted, law_decoded_close, lemma_drifted, lemma_range_parts,
    lemma_restored_finite, lemma_rotated_bounded, lemma_rotation_off, lemma_unrotation_off,
    lemma_zero_units, one,
};
#[allow(unused_imports)]
use crate::algebra::{
    lemma_associate, lemma_cancel, lemma_commute, lemma_constant_factors, lemma_distribute,
    lemma_factor_order, lemma_multiple, lemma_positive, lemma_real_product, lemma_scaled_factors,
    lemma_square, product,
};
#[allow(unused_imports)]
use crate::arith::Arithmetic;
#[allow(unused_imports)]
use crate::binary32::{body_magnitude, compose, lemma_body_order, Binary32};
#[allow(unused_imports)]
use crate::code::{digits, flat, law_flat_then_parse, zero_code, Bits, CodeModel};
#[allow(unused_imports)]
use crate::distances::{
    distance_rounding, estimate_bound, estimate_rounding, exact_code, exact_squares, half_unit,
    law_distance_rounding, law_estimate_close, law_estimate_rounding, law_long_norm_rounding,
    law_norm_rounding, lemma_int_product, lemma_scaled_near, lemma_size_product, lemma_value, near,
    square_unit,
};
#[allow(unused_imports)]
use crate::drift::{all_finite, magnitude_of, units_of};
#[allow(unused_imports)]
use crate::encoding::{
    code_total, cut, degenerate, digits_of, dot_upto, encodable, encoded, greatest, least,
    lemma_code_total, offset_of, step_of, stored_total, total_fits,
};
#[allow(unused_imports)]
use crate::error::Error;
#[allow(unused_imports)]
use crate::estimate::{distance_fits, distance_outcome, estimated, metric_value, Metric};
#[allow(unused_imports)]
use crate::exact::{
    differences, inner_product, law_rotation_keeps, law_rotation_orthogonal, law_rotation_undone,
    sums,
};
#[allow(unused_imports)]
use crate::fidelity::{
    law_encoded_error, law_restored_error, lemma_ordinary, lemma_restored_value, lemma_small_number,
    ordinary,
};
#[allow(unused_imports)]
use crate::kernels::{inner, law_kernels_agree, sum_of_products};
#[allow(unused_imports)]
use crate::laws::{
    exact_rotation, exact_value, exact_values, finite_signs, law_code_size, law_encode_then_read,
    law_flat_distance, law_rotated_dimension, law_rotation_pads, lemma_plain_signed,
    lemma_sign_values, plain_rotation,
};
#[allow(unused_imports)]
use crate::norms::{lemma_element_bound, lemma_root_order, lemma_sum_of_norms, norm2};
#[allow(unused_imports)]
use crate::precision::{gap, law_rounding_exact, law_rounding_monotone, law_rounding_relative};
#[allow(unused_imports)]
use crate::quantizer::{DistancerModel, QuantizerModel};
#[allow(unused_imports)]
use crate::recovery::{lemma_totals, size, total};
#[allow(unused_imports)]
use crate::rotation::{padded, RotationModel};
#[allow(unused_imports)]
use crate::rounded::{
    is_sign, law_codes_kept, law_encode_cuts, law_key_order, law_no_spread, law_zero_vector,
    lemma_greatest, lemma_least, lemma_round_nothing,
};
#[allow(unused_imports)]
use crate::rounding::{round_body, INFINITY_BODY};
#[allow(unused_imports)]
use crate::turning::{lemma_same_backward, with_dimension};
#[allow(unused_imports)]
use crate::zeros::{finite_code, law_zero_distance, zero_answer};
use vstd::arithmetic::power2::{
    lemma2_to64, lemma2_to64_rest, lemma_pow2_adds, lemma_pow2_pos, lemma_pow2_strictly_increases,
    lemma_pow2_unfold, pow2,
};
use vstd::prelude::*;

verus! {

/// The code of dimension `k` in the bytes of a code. With 4 bits, the first
/// half of the dimensions is in the low nibbles, the second half in the high
/// ones.
pub open spec fn code_at(bits: Bits, codes: Seq<u8>, k: int) -> int {
    match bits {
        Bits::Eight => codes[k] as int,
        Bits::Four => if k < codes.len() {
            codes[k] as int % 16
        } else {
            codes[k - codes.len()] as int / 16
        },
    }
}

/// A vector of finite coordinates of at most `2^115`, of which two are at least
/// `2^-118` apart.
pub open spec fn spread_out(rx: Seq<Binary32>) -> bool {
    &&& forall|k: int|
        0 <= k < rx.len() ==> (#[trigger] rx[k]).finite() && rx[k].magnitude() <= pow2(264)
    &&& exists|i: int, j: int|
        0 <= i < rx.len() && 0 <= j < rx.len() && (#[trigger] rx[i]).units() - (
        #[trigger] rx[j]).units() >= 0x8000_0000
}

/// The least and the greatest number are among the numbers.
proof fn lemma_extremes_found(x: Seq<Binary32>, n: nat)
    requires
        all_finite(x),
        0 < n <= x.len(),
    ensures
        exists|k: int| 0 <= k < n && #[trigger] x[k] == least(x, n),
        exists|k: int| 0 <= k < n && #[trigger] x[k] == greatest(x, n),
    decreases n,
{
    let k = n - 1;
    assert(x[k].finite());
    if n > 1 {
        lemma_extremes_found(x, (n - 1) as nat);
        let a = choose|a: int| 0 <= a < n - 1 && #[trigger] x[a] == least(x, (n - 1) as nat);
        let b = choose|b: int| 0 <= b < n - 1 && #[trigger] x[b] == greatest(x, (n - 1) as nat);
        assert(x[a] == least(x, n) || x[k] == least(x, n));
        assert(x[b] == greatest(x, n) || x[k] == greatest(x, n));
    } else {
        assert(least(x, 0) == Binary32 { bits: crate::binary32::INFINITY_BITS });
        assert(greatest(x, 0) == Binary32 { bits: crate::binary32::NEG_INFINITY_BITS });
        assert(x[k] == least(x, n));
        assert(x[k] == greatest(x, n));
    }
}

/// The step of a range, in real numbers: `t` is the exact range, `r` the
/// rounded one.
proof fn lemma_step_of_range(bits: Bits, t: real, r: real, s: real)
    requires
        t >= 2147483648real,
        16777216real * size(r - t) <= t,
        bits is Four ==> 16777216real * size(r - 15real * s) <= r + 125829120real,
        bits is Eight ==> 16777216real * size(r - 255real * s) <= r + 2139095040real,
    ensures
        s >= 8388608real,
        bits is Four ==> 4194304real * t <= 4194305real * (15real * s),
        bits is Four ==> 4194305real * t >= 4194304real * (15real * s),
        bits is Eight ==> 4194304real * t <= 4194305real * (255real * s),
        bits is Eight ==> 4194305real * t >= 4194304real * (255real * s),
{
}

/// The offset and the step of a vector that is spread out: the step is a normal
/// number, and as many steps as the largest code says are the range.
proof fn lemma_spread_parts(rx: Seq<Binary32>, bits: Bits)
    requires
        spread_out(rx),
    ensures
        ordinary(rx, bits),
        all_finite(rx),
        offset_of(rx).finite(),
        greatest(rx, rx.len()).finite(),
        offset_of(rx).magnitude() <= pow2(264),
        !step_of(rx, bits).at_most(Binary32 { bits: 0 }),
        step_of(rx, bits).finite(),
        step_of(rx, bits).units() == step_of(rx, bits).magnitude(),
        ({
            let (lower, upper) = (offset_of(rx), greatest(rx, rx.len()));
            let (t, s) = (upper.units() - lower.units(), step_of(rx, bits).units());
            &&& s >= 0x80_0000
            &&& t <= 2 * pow2(264)
            &&& bits is Four ==> 0x40_0000 * t <= 0x40_0001 * (15 * s)
            &&& bits is Four ==> 0x40_0001 * t >= 0x40_0000 * (15 * s)
            &&& bits is Eight ==> 0x40_0000 * t <= 0x40_0001 * (255 * s)
            &&& bits is Eight ==> 0x40_0001 * t >= 0x40_0000 * (255 * s)
        }),
{
    let b = pow2(264) as real;
    let (i, j) = choose|i: int, j: int|
        0 <= i < rx.len() && 0 <= j < rx.len() && (#[trigger] rx[i]).units() - (
        #[trigger] rx[j]).units() >= 0x8000_0000;
    assert forall|k: int| 0 <= k < rx.len() implies size(#[trigger] units_of(rx)[k]) <= b by {
        assert(rx[k].magnitude() <= pow2(264));
    }
    lemma_pow2_pos(264);
    let (t, r) = lemma_range_parts(rx, bits, b);
    lemma_least(rx, rx.len());
    lemma_greatest(rx, rx.len());
    let (lower, upper, step) = (offset_of(rx), greatest(rx, rx.len()), step_of(rx, bits));
    law_key_order(rx[i], upper);
    law_key_order(lower, rx[j]);
    let s = step.magnitude() as real;
    lemma_step_of_range(bits, t, r, s);
    assert(step.body() >= 0x80_0000);
    lemma_ordinary(rx, bits, i);
    lemma_body_order(0, step.body());
    assert(step.units() == step.magnitude());
}

/// The code `g` of a coordinate of `v` units, of which `r` is restored, with an
/// offset of `l` and a step of `s` units.
pub open spec fn code_stands_for(top: int, l: int, s: int, g: int, v: int, r: Binary32) -> bool {
    let (e, f) = (l + g * s - v, r.units() - v);
    &&& l <= v
    &&& 0x40_0000 * (v - l) <= 0x40_0001 * (top * s)
    &&& 0 <= g <= top
    &&& 0x100_0000 * e <= (0x80_0001 + 3 * top) * s
    &&& -(0x100_0000 * e) <= (0x80_0001 + 3 * top) * s
    &&& r.finite()
    &&& 0x100_0000 * f <= (0x80_0001 + 6 * top) * s + magnitude_of(l)
    &&& -(0x100_0000 * f) <= (0x80_0001 + 6 * top) * s + magnitude_of(l)
}

/// `c` is a code of the rotated vector `rx`.
pub open spec fn stands_for(c: CodeModel<Binary32>, rx: Seq<Binary32>, bits: Bits) -> bool {
    let top = if bits is Four {
        15int
    } else {
        255int
    };
    let (l, s) = (c.lower.units(), c.step.units());
    &&& c.bits == bits
    &&& bits is Four ==> rx.len() == 2 * c.codes.len()
    &&& bits is Eight ==> rx.len() == c.codes.len()
    &&& c.lower.finite()
    &&& c.step.finite()
    &&& s > 0
    &&& exists|k: int| 0 <= k < rx.len() && (#[trigger] rx[k]).units() == l
    &&& exists|k: int|
        0 <= k < rx.len() && 0x40_0001 * ((#[trigger] rx[k]).units() - l) >= 0x40_0000 * (top * s)
    &&& c.restored().len() == rx.len()
    &&& forall|k: int|
        0 <= k < rx.len() ==> code_stands_for(
            top,
            l,
            s,
            code_at(bits, c.codes, k),
            (#[trigger] rx[k]).units(),
            c.restored()[k],
        )
}

/// One coordinate of the code of a vector.
proof fn lemma_encoded_coordinate(m: RotationModel<Binary32>, x: Seq<Binary32>, bits: Bits, k: int)
    requires
        m.well_formed(),
        m.applies_to(m.dim),
        x.len() > 0,
        spread_out(m.rotated(x)),
        0 <= k < m.dim,
    ensures
        ({
            let (c, rx) = (encoded(m, x, bits), m.rotated(x));
            code_stands_for(
                bits.top() as int,
                c.lower.units(),
                c.step.units(),
                code_at(bits, c.codes, k),
                rx[k].units(),
                c.restored()[k],
            )
        }),
{
    let (c, rx) = (encoded(m, x, bits), m.rotated(x));
    law_rotation_pads(m, x);
    law_rotated_dimension(m, x);
    lemma_spread_parts(rx, bits);
    law_code_size(m, x, bits);
    law_encoded_error(m, x, bits, k);
    let g = digits(bits, c.codes)[k];
    assert(g == code_at(bits, c.codes, k));
    lemma_least(rx, rx.len());
    lemma_greatest(rx, rx.len());
    assert(rx[k].finite());
    law_key_order(c.lower, rx[k]);
    law_key_order(rx[k], greatest(rx, rx.len()));
    let (s, top) = (c.step.magnitude(), bits.top());
    assert(g * s <= top * s) by (nonlinear_arith)
        requires
            g <= top,
    ;
    lemma2_to64();
    lemma_pow2_adds(6, 264);
    lemma_restored_finite(c.lower, c.step, g);
    law_restored_error(m, x, bits, k);
    assert(c.lower.magnitude() == magnitude_of(c.lower.units()));
}

/// The code of a vector whose rotated coordinates are spread out.
proof fn lemma_encoded_stands_for(m: RotationModel<Binary32>, x: Seq<Binary32>, bits: Bits)
    requires
        m.well_formed(),
        m.applies_to(m.dim),
        x.len() > 0,
        spread_out(m.rotated(x)),
    ensures
        stands_for(encoded(m, x, bits), m.rotated(x), bits),
{
    let (c, rx) = (encoded(m, x, bits), m.rotated(x));
    law_rotation_pads(m, x);
    law_rotated_dimension(m, x);
    lemma_spread_parts(rx, bits);
    law_code_size(m, x, bits);
    lemma_extremes_found(rx, rx.len());
    let a = choose|a: int| 0 <= a < rx.len() && #[trigger] rx[a] == least(rx, rx.len());
    let b = choose|b: int| 0 <= b < rx.len() && #[trigger] rx[b] == greatest(rx, rx.len());
    law_encoded_error(m, x, bits, a);
    assert(rx[a].units() == c.lower.units());
    assert(0x40_0001 * (rx[b].units() - c.lower.units()) >= 0x40_0000 * (bits.top() as int
        * c.step.units()));
    assert forall|k: int| 0 <= k < rx.len() implies code_stands_for(
        bits.top() as int,
        c.lower.units(),
        c.step.units(),
        code_at(bits, c.codes, k),
        (#[trigger] rx[k]).units(),
        c.restored()[k],
    ) by {
        lemma_encoded_coordinate(m, x, bits, k);
    }
}

/// The code that encoding gives a vector, by its rotated coordinates, where
/// these are spread out. The offset is the least of them, and as many steps as
/// the largest code reach from it to the greatest, up to one part in four
/// million. The byte of each coordinate holds how many steps it is above the
/// offset, to the nearest half step and `3 * top + 1` parts in `2^24` of a step,
/// where `top` is the largest code; the value that is restored from it is off
/// by rounding more.
pub proof fn law_encoded_coordinates(q: QuantizerModel, x: Seq<Binary32>)
    requires
        q.rotation.well_formed(),
        q.rotation.applies_to(q.rotation.dim),
        x.len() > 0,
        spread_out(q.rotation.rotated(x)),
    ensures
        stands_for(q.code_of(x), q.rotation.rotated(x), q.bits),
        stands_for(q.distancer(x).query, q.rotation.rotated(x), Bits::Eight),
{
    lemma_encoded_stands_for(q.rotation, x, q.bits);
    lemma_encoded_stands_for(q.rotation, x, Bits::Eight);
}

/// The sum of the codes of the first `n` dimensions.
pub open spec fn codes_total(bits: Bits, codes: Seq<u8>, n: nat) -> int
    decreases n,
{
    if n == 0 {
        0
    } else {
        codes_total(bits, codes, (n - 1) as nat) + code_at(bits, codes, n - 1)
    }
}

/// Entry `k` of a vector, in units; zero where the vector does not have it.
pub open spec fn entry(x: Seq<Binary32>, k: int) -> int {
    if k < x.len() {
        x[k].units()
    } else {
        0
    }
}

/// The sum of the products of the first `n` entries of two vectors, in units.
pub open spec fn entry_products(x: Seq<Binary32>, y: Seq<Binary32>, n: nat) -> int
    decreases n,
{
    if n == 0 {
        0
    } else {
        entry_products(x, y, (n - 1) as nat) + entry(x, n - 1) * entry(y, n - 1)
    }
}

/// The sum of codes as it is kept elsewhere.
proof fn lemma_codes_total(bits: Bits, codes: Seq<u8>, n: nat)
    requires
        n <= digits(bits, codes).len(),
    ensures
        codes_total(bits, codes, n) == total(digits(bits, codes), n),
    decreases n,
{
    if n > 0 {
        lemma_codes_total(bits, codes, (n - 1) as nat);
    }
}

/// Rounding a number of units that is at most a power of two gives no more.
proof fn lemma_rounded_within(num: nat, den: nat, r: nat)
    requires
        den > 0,
        num <= pow2(r) * den,
        23 <= r <= 272,
    ensures
        round_body(num, den) < INFINITY_BODY,
        body_magnitude(round_body(num, den)) <= pow2(r),
{
    lemma2_to64();
    let body = ((r - 22) * 0x80_0000) as nat;
    let k = (r - 23) as nat;
    lemma_pow2_adds(23, k);
    assert(body % 0x80_0000 == 0 && body / 0x80_0000 == r - 22);
    assert(body_magnitude(body) == 0x80_0000 * pow2(k));
    law_rounding_exact(body);
    assert(num * 1 <= pow2(r) * den);
    law_rounding_monotone(num, den, pow2(r), 1);
    if round_body(num, den) < body {
        lemma_body_order(round_body(num, den), body);
    }
}

/// A product of numbers of at most `2^p` and `2^q` units.
proof fn lemma_product_within(a: Binary32, b: Binary32, p: nat, q: nat, r: nat)
    requires
        a.finite(),
        b.finite(),
        a.magnitude() <= pow2(p),
        b.magnitude() <= pow2(q),
        p + q == r + 149,
        23 <= r <= 272,
    ensures
        a.times(b).finite(),
        a.times(b).magnitude() <= pow2(r),
{
    let (x, y) = (a.magnitude(), b.magnitude());
    let (c, d) = (pow2(p), pow2(q));
    lemma_pow2_adds(p, q);
    lemma_pow2_adds(r, 149);
    lemma_pow2_pos(149);
    assert(x * y <= c * d) by (nonlinear_arith)
        requires
            x <= c,
            y <= d,
    ;
    lemma_rounded_within(x * y, pow2(149), r);
}

/// A sum of numbers of at most `2^r` units.
proof fn lemma_sum_within(a: Binary32, b: Binary32, r: nat)
    requires
        a.finite(),
        b.finite(),
        a.magnitude() <= pow2(r),
        b.magnitude() <= pow2(r),
        23 <= r <= 271,
    ensures
        a.plus(b).finite(),
        a.plus(b).magnitude() <= pow2(r + 1),
        a.minus(b).finite(),
        a.minus(b).magnitude() <= pow2(r + 1),
{
    lemma_added_within(a, b, r);
    let n = b.negated();
    assert(n.body() == b.body());
    lemma_added_within(a, n, r);
}

proof fn lemma_added_within(a: Binary32, b: Binary32, r: nat)
    requires
        a.finite(),
        b.finite(),
        a.magnitude() <= pow2(r),
        b.magnitude() <= pow2(r),
        23 <= r <= 271,
    ensures
        a.plus(b).finite(),
        a.plus(b).magnitude() <= pow2(r + 1),
{
    lemma_pow2_unfold(r + 1);
    let n = magnitude_of(a.units() + b.units());
    lemma_rounded_within(n, 1, r + 1);
    lemma_round_nothing(1);
    assert(a.plus(b).body() == round_body(n, 1));
}

/// A natural number of at most `2^k`.
proof fn lemma_natural_within(n: nat, k: nat)
    requires
        n <= pow2(k),
        k <= 100,
    ensures
        Binary32::of_nat(n).finite(),
        !Binary32::of_nat(n).negative(),
        Binary32::of_nat(n).magnitude() <= pow2(k + 149),
        0x100_0000 * gap(n * pow2(149), Binary32::of_nat(n).magnitude()) <= n * pow2(149),
{
    lemma_pow2_adds(k, 149);
    let (u, c) = (pow2(149), pow2(k));
    assert(n * u <= c * u) by (nonlinear_arith)
        requires
            n <= c,
    ;
    lemma_rounded_within(n * u, 1, k + 149);
    law_rounding_relative(n * u, 1);
}

/// A computed product with a natural number is off by at most three parts in
/// `2^24`, and half a unit.
#[verifier::rlimit(40)]
proof fn lemma_counted(step: Binary32, t: nat)
    requires
        step.finite(),
        !step.negative(),
        t <= pow2(64),
        step.magnitude() * t <= pow2(270),
    ensures
        ({
            let r = step.times(Binary32::of_nat(t));
            let e = r.units() - step.magnitude() * t;
            &&& r.finite()
            &&& !r.negative()
            &&& 0x100_0000 * e <= 3 * (step.magnitude() * t) + 0x80_0000
            &&& -(0x100_0000 * e) <= 3 * (step.magnitude() * t) + 0x80_0000
        }),
{
    lemma_pow2_pos(149);
    lemma_pow2_unfold(271);
    let (s, u) = (step.magnitude(), pow2(149));
    lemma_natural_within(t, 64);
    let n = Binary32::of_nat(t);
    let m = n.magnitude();
    let (a, b) = (s * m, s * t);
    let d = gap(t * u, m);
    assert(0x100_0000 * gap(b * u, a) <= b * u) by (nonlinear_arith)
        requires
            a == s * m,
            b == s * t,
            0x100_0000 * d <= t * u,
            d == gap(t * u, m),
            gap(t * u, m) == (if t * u >= m {
                (t * u - m) as nat
            } else {
                (m - t * u) as nat
            }),
            gap(b * u, a) == (if b * u >= a {
                (b * u - a) as nat
            } else {
                (a - b * u) as nat
            }),
    ;
    let w = b * u;
    assert(b * u <= pow2(270) * u) by (nonlinear_arith)
        requires
            b <= pow2(270),
    ;
    let big = pow2(270) * u;
    assert(pow2(271) * u == 2 * big) by (nonlinear_arith)
        requires
            pow2(271) == 2 * pow2(270),
            big == pow2(270) * u,
    ;
    lemma_rounded_within(a, u, 271);
    law_rounding_relative(a, u);
    let r = step.times(n);
    assert(r == compose(false, round_body(a, u)));
    let z = r.magnitude();
    let g = gap(a, z * u);
    assert(0x100_0000 * (z - b) <= 3 * b + 0x80_0000 && -(0x100_0000 * (z - b)) <= 3 * b
        + 0x80_0000) by (nonlinear_arith)
        requires
            u > 0,
            w == b * u,
            0x100_0000 * (a - z * u) <= a + 0x80_0000 * u,
            0x100_0000 * (z * u - a) <= a + 0x80_0000 * u,
            0x100_0000 * (a - w) <= w,
            0x100_0000 * (w - a) <= w,
    ;
}

/// The stored sum of codes is the step times the sum of the codes of all
/// dimensions, up to three parts in `2^24` and half a unit.
pub open spec fn sum_stored(c: CodeModel<Binary32>, dim: nat) -> bool {
    let want = c.step.units() * codes_total(c.bits, c.codes, dim);
    let e = c.code_sum.units() - want;
    &&& c.code_sum.finite()
    &&& 0x100_0000 * e <= 3 * want + 0x80_0000
    &&& -(0x100_0000 * e) <= 3 * want + 0x80_0000
}

/// The sum of the codes of a vector, as stored.
proof fn lemma_encoded_sum(m: RotationModel<Binary32>, x: Seq<Binary32>, bits: Bits)
    requires
        m.well_formed(),
        m.applies_to(m.dim),
        m.dim <= u32::MAX,
        x.len() > 0,
        spread_out(m.rotated(x)),
        forall|k: int|
            0 <= k < m.dim ==> (#[trigger] m.rotated(x)[k]).magnitude() <= pow2(230),
    ensures
        sum_stored(encoded(m, x, bits), m.dim),
{
    let (c, rx) = (encoded(m, x, bits), m.rotated(x));
    law_rotation_pads(m, x);
    law_rotated_dimension(m, x);
    lemma_spread_parts(rx, bits);
    law_code_size(m, x, bits);
    law_codes_kept(m, x, bits);
    let d = digits_of(rx, offset_of(rx), step_of(rx, bits), bits);
    lemma_totals(d, d.len());
    lemma_codes_total(bits, c.codes, m.dim);
    lemma_code_total(d, d.len(), d.len());
    let t = code_total(d, d.len());
    assert(stored_total(d, bits) == t);
    assert(t == codes_total(bits, c.codes, m.dim));
    lemma_extremes_found(rx, rx.len());
    let a = choose|a: int| 0 <= a < rx.len() && #[trigger] rx[a] == least(rx, rx.len());
    let b = choose|b: int| 0 <= b < rx.len() && #[trigger] rx[b] == greatest(rx, rx.len());
    assert(rx[a].magnitude() <= pow2(230) && rx[b].magnitude() <= pow2(230));
    let (s, p) = (c.step.magnitude(), pow2(230));
    assert(s <= p);
    lemma2_to64();
    lemma2_to64_rest();
    lemma_pow2_adds(40, 230);
    assert(s * t <= p * pow2(40)) by (nonlinear_arith)
        requires
            s <= p,
            t <= pow2(40),
    ;
    assert(p * pow2(40) == pow2(40) * p) by (nonlinear_arith);
    lemma_counted(c.step, t);
}

/// The stored squared norm is the sum of the squares of the entries, up to two
/// parts in `2^24` for each entry and one more, and two units for each.
pub open spec fn norm_stored(c: CodeModel<Binary32>, x: Seq<Binary32>, dim: nat) -> bool {
    let want = entry_products(x, x, dim) as real;
    let got = (c.norm2.units() * pow2(149)) as real;
    &&& c.norm2.finite()
    &&& size(got - want) <= 2real * product((dim + 1) as real, want) / 16777216real + 2real
        * product(dim as real, one())
}

/// Sums of squares of entries in terms of exact values.
proof fn lemma_entry_squares(x: Seq<Binary32>, n: nat)
    requires
        n <= x.len(),
    ensures
        product(square_unit(), exact_squares(x, n)) == entry_products(x, x, n) as real,
        entry_products(x, x, n) >= 0,
    decreases n,
{
    if n > 0 {
        let k = (n - 1) as nat;
        lemma_entry_squares(x, k);
        let a = x[k as int];
        lemma_value(a);
        let (v, u) = (exact_value(a), one());
        assert(exact_values(x)[k as int] == v);
        lemma_distribute(square_unit(), exact_squares(x, k), product(v, v));
        lemma_associate(u, u, product(v, v));
        lemma_associate(u, v, v);
        lemma_commute(u, v);
        let w = a.units() as real;
        lemma_associate(u, w, v);
        lemma_commute(u, w);
        lemma_associate(w, u, v);
        lemma_int_product(a.units(), a.units());
        assert(a.units() * a.units() >= 0) by (nonlinear_arith);
    } else {
        lemma_constant_factors(square_unit());
    }
}

/// A computed sum of squares in units, from its distance to the exact one.
proof fn lemma_squares_units(a: Binary32, e: real, xx: real, k: nat, z: real, d: real)
    requires
        near(a, e, d),
        product(square_unit(), e) == xx,
        d == z + 4real * product(k as real, half_unit()),
    ensures
        size((a.units() * pow2(149)) as real - xx) <= product(square_unit(), z) + 2real * product(
            k as real,
            one(),
        ),
{
    let (w, u) = (square_unit(), one());
    lemma_scaled_near(a, e, d);
    lemma_value(a);
    lemma_associate(u, u, exact_value(a));
    lemma_commute(u, exact_value(a));
    lemma_int_product(a.units(), pow2(149) as int);
    lemma_commute(u, a.units() as real);
    let h = product(k as real, half_unit());
    lemma_distribute(w, z, 4real * h);
    lemma_commute(w, 4real * h);
    lemma_multiple(4real, h, w);
    lemma_associate(k as real, half_unit(), w);
    lemma_associate(half_unit(), u, u);
    lemma_multiple(1real / 2real, 1real, u);
    lemma_constant_factors(u);
    lemma_commute(k as real, 1real / 2real * u);
    lemma_multiple(1real / 2real, u, k as real);
    lemma_commute(u, k as real);
}

/// A computed sum of squares that is at most `2^120` is finite.
proof fn lemma_norm_finite(x: Seq<Binary32>, n: nat)
    requires
        n <= x.len(),
        n <= u32::MAX,
        forall|k: int| 0 <= k < n ==> (#[trigger] x[k]).finite(),
        entry_products(x, x, n) <= pow2(418),
    ensures
        dot_upto(x, x, n).finite(),
    decreases n,
{
    if n > 0 {
        let k = (n - 1) as nat;
        let a = x[k as int];
        let (xx, t) = (entry_products(x, x, k), a.units() * a.units());
        lemma_entry_squares(x, k);
        assert(t >= 0 && t == a.magnitude() * a.magnitude()) by (nonlinear_arith)
            requires
                a.units() == a.magnitude() || a.units() == -(a.magnitude() as int),
                t == a.units() * a.units(),
        ;
        lemma_norm_finite(x, k);
        law_long_norm_rounding(x, k);
        let (s, e) = (dot_upto(x, x, k), exact_squares(x, k));
        let (h, u) = (product(k as real, half_unit()), one());
        lemma_pow2_pos(149);
        lemma_value(s);
        lemma_associate(k as real, half_unit(), u);
        lemma_commute(k as real, 1real / 2real);
        lemma_multiple(1real / 2real, 1real, k as real);
        lemma_constant_factors(k as real);
        // The computed sum is at most a bit more than twice the exact one.
        let v = exact_value(s);
        let c = 33554434real / 16777216real;
        let bound = c * e + 2real * h;
        lemma_positive(k as real, half_unit());
        assert(size(v) <= bound);
        lemma_size_product(v, u);
        lemma_factor_order(u, size(v), bound);
        lemma_commute(bound, u);
        lemma_distribute(u, c * e, 2real * h);
        lemma_commute(u, c * e);
        lemma_multiple(c, e, u);
        lemma_commute(u, 2real * h);
        lemma_multiple(2real, h, u);
        let p = pow2(269) as real;
        lemma_pow2_adds(269, 149);
        lemma_real_product(pow2(269), pow2(149));
        lemma_associate(e, u, u);
        lemma_commute(e, square_unit());
        lemma_cancel(u, product(e, u), p);
        lemma_pow2_unfold(270);
        lemma_pow2_unfold(271);
        lemma2_to64();
        lemma_pow2_adds(32, 237);
        lemma_pow2_pos(237);
        assert(p >= 4294967296real) by {
            assert(pow2(269) >= 0x1_0000_0000) by (nonlinear_arith)
                requires
                    pow2(269) == 0x1_0000_0000 * pow2(237),
                    pow2(237) >= 1,
            ;
        }
        assert(s.magnitude() as real == size(s.units() as real));
        assert(s.magnitude() <= pow2(271));
        lemma_rounded_within((a.magnitude() * a.magnitude()) as nat, pow2(149), 269);
        lemma_sum_within(s, a.times(a), 271);
    } else {
        lemma_small_number(0);
        assert(0 * pow2(149) == 0);
    }
}

/// Entries that a vector does not have add nothing.
proof fn lemma_entries_beyond(x: Seq<Binary32>, y: Seq<Binary32>, a: nat, b: nat)
    requires
        a <= b,
        x.len() <= a || y.len() <= a,
    ensures
        entry_products(x, y, a) == entry_products(x, y, b),
    decreases b,
{
    if a < b {
        lemma_entries_beyond(x, y, a, (b - 1) as nat);
        let (p, q) = (entry(x, b - 1), entry(y, b - 1));
        assert(p == 0 || q == 0);
        assert(p * q == 0) by (nonlinear_arith)
            requires
                p == 0 || q == 0,
        ;
    }
}

/// Sums of products depend on the entries alone.
proof fn lemma_same_entries(
    x: Seq<Binary32>,
    y: Seq<Binary32>,
    a: Seq<Binary32>,
    b: Seq<Binary32>,
    n: nat,
)
    requires
        forall|k: int| 0 <= k < n ==> #[trigger] entry(x, k) == entry(a, k),
        forall|k: int| 0 <= k < n ==> #[trigger] entry(y, k) == entry(b, k),
    ensures
        entry_products(x, y, n) == entry_products(a, b, n),
    decreases n,
{
    if n > 0 {
        lemma_same_entries(x, y, a, b, (n - 1) as nat);
        assert(entry(x, n - 1) == entry(a, n - 1));
        assert(entry(y, n - 1) == entry(b, n - 1));
    }
}

/// The squared norm of a vector, as stored.
proof fn lemma_encoded_norm(m: RotationModel<Binary32>, x: Seq<Binary32>, bits: Bits)
    requires
        m.dim <= u32::MAX,
        forall|k: int| 0 <= k < x.len() && k < m.dim ==> (#[trigger] x[k]).finite(),
        entry_products(x, x, m.dim) <= pow2(418),
        !degenerate(m, x, bits),
    ensures
        norm_stored(encoded(m, x, bits), x, m.dim),
{
    let used = cut(x, m.dim);
    let n = used.len();
    let c = encoded(m, x, bits);
    let want = entry_products(x, x, m.dim);
    assert forall|k: int| 0 <= k < n implies #[trigger] entry(used, k) == entry(x, k) by {}
    lemma_same_entries(used, used, x, x, n);
    if x.len() <= m.dim {
        lemma_entries_beyond(x, x, n, m.dim);
    }
    assert forall|k: int| 0 <= k < n implies (#[trigger] used[k]).finite() by {
        assert(used[k] == x[k]);
    }
    lemma_norm_finite(used, n);
    law_norm_rounding(used, n);
    lemma_entry_squares(used, n);
    let (e, w, u) = (exact_squares(used, n), square_unit(), one());
    let z = 2real * product((n + 1) as real, e) / 16777216real;
    let d = z + 4real * product(n as real, half_unit());
    lemma_squares_units(c.norm2, e, want as real, n, z, d);
    let g = 2real / 16777216real;
    let p = product((n + 1) as real, e);
    lemma_commute(w, z);
    lemma_multiple(g, p, w);
    assert(z == g * p);
    lemma_associate((n + 1) as real, e, w);
    lemma_commute(e, w);
    lemma_factor_order(want as real, (n + 1) as real, (m.dim + 1) as real);
    lemma_pow2_pos(149);
    lemma_factor_order(u, n as real, m.dim as real);
}

/// The metadata that encoding gives a vector of norm at most `2^60`, where the
/// rotated coordinates are spread out and at most `2^81`: the sum of codes and
/// the squared norm.
pub proof fn law_encoded_metadata(q: QuantizerModel, x: Seq<Binary32>)
    requires
        q.rotation.well_formed(),
        q.rotation.applies_to(q.rotation.dim),
        q.rotation.dim <= u32::MAX,
        x.len() > 0,
        forall|k: int| 0 <= k < x.len() && k < q.rotation.dim ==> (#[trigger] x[k]).finite(),
        entry_products(x, x, q.rotation.dim) <= pow2(418),
        spread_out(q.rotation.rotated(x)),
        forall|k: int|
            0 <= k < q.rotation.dim ==> (#[trigger] q.rotation.rotated(x)[k]).magnitude() <= pow2(
                230,
            ),
    ensures
        sum_stored(q.code_of(x), q.rotation.dim),
        norm_stored(q.code_of(x), x, q.rotation.dim),
        sum_stored(q.distancer(x).query, q.rotation.dim),
        norm_stored(q.distancer(x).query, x, q.rotation.dim),
{
    let m = q.rotation;
    law_rotation_pads(m, x);
    lemma_spread_parts(m.rotated(x), q.bits);
    lemma_spread_parts(m.rotated(x), Bits::Eight);
    lemma_encoded_sum(m, x, q.bits);
    lemma_encoded_sum(m, x, Bits::Eight);
    lemma_encoded_norm(m, x, q.bits);
    lemma_encoded_norm(m, x, Bits::Eight);
}

/// The code bytes of a code hold `dim` dimensions.
pub open spec fn has_dimension(c: CodeModel<Binary32>, dim: nat) -> bool {
    match c.bits {
        Bits::Eight => c.codes.len() == dim,
        Bits::Four => 2 * c.codes.len() == dim,
    }
}

/// Offset and step are at most `2^36`, the sum of codes is at most `2^73` and
/// the squared norm at most `2^91`.
pub open spec fn moderate_code(c: CodeModel<Binary32>) -> bool {
    &&& c.lower.finite() && c.lower.magnitude() <= pow2(185)
    &&& c.step.finite() && c.step.magnitude() <= pow2(185)
    &&& c.code_sum.finite() && c.code_sum.magnitude() <= pow2(222)
    &&& c.norm2.finite() && c.norm2.magnitude() <= pow2(240)
}

/// The sum of the products of the codes of the first `n` dimensions.
pub open spec fn code_products(x: CodeModel<Binary32>, y: CodeModel<Binary32>, n: nat) -> int
    decreases n,
{
    if n == 0 {
        0
    } else {
        code_products(x, y, (n - 1) as nat) + code_at(x.bits, x.codes, n - 1) * code_at(
            y.bits,
            y.codes,
            n - 1,
        )
    }
}

/// Sums of products of codes as they are kept elsewhere.
proof fn lemma_code_products(x: CodeModel<Binary32>, y: CodeModel<Binary32>, dim: nat, n: nat)
    requires
        has_dimension(x, dim),
        has_dimension(y, dim),
        n <= dim,
    ensures
        code_products(x, y, n) == sum_of_products(
            digits(x.bits, x.codes),
            digits(y.bits, y.codes),
            n,
        ),
        0 <= code_products(x, y, n) <= 65_025 * n,
    decreases n,
{
    if n > 0 {
        lemma_code_products(x, y, dim, (n - 1) as nat);
        let (a, b) = (code_at(x.bits, x.codes, n - 1), code_at(y.bits, y.codes, n - 1));
        assert(digits(x.bits, x.codes)[n - 1] == a);
        assert(digits(y.bits, y.codes)[n - 1] == b);
        assert(0 <= a * b <= 65_025) by (nonlinear_arith)
            requires
                0 <= a <= 255,
                0 <= b <= 255,
        ;
    }
}

/// A product of three numbers of at most `2^p`, `2^q` and `2^r` units.
proof fn lemma_three_within(a: Binary32, b: Binary32, c: Binary32, p: nat, q: nat, r: nat)
    requires
        a.finite() && a.magnitude() <= pow2(p),
        b.finite() && b.magnitude() <= pow2(q),
        c.finite() && c.magnitude() <= pow2(r),
        172 <= p + q <= 400,
        23 <= p + q + r - 298 <= 272,
    ensures
        a.times(b).times(c).finite(),
        a.times(b).times(c).magnitude() <= pow2((p + q + r - 298) as nat),
{
    let s = (p + q - 149) as nat;
    lemma_product_within(a, b, p, q, s);
    lemma_product_within(a.times(b), c, s, r, (p + q + r - 298) as nat);
}

/// The sum of four numbers of at most `2^253`, twice `2^258`, and `2^269` units.
proof fn lemma_four_within(a: Binary32, b: Binary32, c: Binary32, d: Binary32)
    requires
        a.finite() && a.magnitude() <= pow2(253),
        b.finite() && b.magnitude() <= pow2(258),
        c.finite() && c.magnitude() <= pow2(258),
        d.finite() && d.magnitude() <= pow2(269),
    ensures
        a.plus(b).plus(c).plus(d).finite(),
        a.plus(b).plus(c).plus(d).magnitude() <= pow2(270),
{
    lemma_pow2_strictly_increases(253, 258);
    lemma_pow2_strictly_increases(258, 259);
    lemma_pow2_strictly_increases(260, 269);
    lemma_sum_within(a, b, 258);
    let s = a.plus(b);
    lemma_sum_within(s, c, 259);
    lemma_sum_within(s.plus(c), d, 269);
}

/// The integer dot product of two codes of one dimension is the sum of the
/// products of their codes, whatever their widths.
pub proof fn law_kernel_products(dim: nat, x: CodeModel<Binary32>, y: CodeModel<Binary32>)
    requires
        has_dimension(x, dim),
        has_dimension(y, dim),
    ensures
        inner(x.bits, x.codes, y.bits, y.codes) == code_products(x, y, dim),
{
    law_kernels_agree(x.bits, x.codes, y.bits, y.codes);
    lemma_code_products(x, y, dim, dim);
}

proof fn lemma_powers_of_counts()
    ensures
        pow2(32) == 0x1_0000_0000,
        pow2(48) == 0x1_0000_0000_0000,
{
    lemma2_to64();
    lemma2_to64_rest();
}

/// The estimate from two moderate codes is finite.
proof fn lemma_any_estimate_finite(dim: nat, x: CodeModel<Binary32>, y: CodeModel<Binary32>)
    requires
        dim <= u32::MAX,
        inner(x.bits, x.codes, y.bits, y.codes) <= 0x1_0000_0000_0000,
        moderate_code(x),
        moderate_code(y),
    ensures
        estimated(dim, x, y).finite(),
        estimated(dim, x, y).magnitude() <= pow2(270),
{
    lemma_powers_of_counts();
    let p = inner(x.bits, x.codes, y.bits, y.codes);
    lemma_natural_within(dim, 32);
    lemma_natural_within(p, 48);
    let (n, ip) = (Binary32::of_nat(dim), Binary32::of_nat(p));
    lemma_three_within(n, x.lower, y.lower, 181, 185, 185);
    lemma_product_within(x.lower, y.code_sum, 185, 222, 258);
    lemma_product_within(y.lower, x.code_sum, 185, 222, 258);
    lemma_three_within(x.step, y.step, ip, 185, 185, 197);
    lemma_four_within(
        n.times(x.lower).times(y.lower),
        x.lower.times(y.code_sum),
        y.lower.times(x.code_sum),
        x.step.times(y.step).times(ip),
    );
}

/// The estimate from two moderate codes of one dimension is finite.
proof fn lemma_estimate_finite(dim: nat, x: CodeModel<Binary32>, y: CodeModel<Binary32>)
    requires
        dim <= u32::MAX,
        has_dimension(x, dim),
        has_dimension(y, dim),
        moderate_code(x),
        moderate_code(y),
    ensures
        inner(x.bits, x.codes, y.bits, y.codes) == code_products(x, y, dim),
        inner(x.bits, x.codes, y.bits, y.codes) <= 0x1_0000_0000_0000,
        estimated(dim, x, y).finite(),
        estimated(dim, x, y).magnitude() <= pow2(270),
{
    law_kernel_products(dim, x, y);
    lemma_code_products(x, y, dim, dim);
    lemma_any_estimate_finite(dim, x, y);
}

/// The terms of an estimate in units of products: `n` dimensions, offsets,
/// steps and sums of codes in units, and `p` for the products of codes.
pub open spec fn estimate_terms(
    n: int,
    lx: int,
    ly: int,
    tx: int,
    ty: int,
    sx: int,
    sy: int,
    p: int,
) -> (int, int, int, int) {
    (n * lx * ly, lx * ty, ly * tx, sx * sy * p)
}

/// A product of four factors, the first a natural number, in units.
proof fn lemma_units_of_terms(n: nat, a: Binary32, b: Binary32)
    ensures
        product(
            square_unit(),
            product(product(n as real, exact_value(a)), exact_value(b)),
        ) == (n * a.units() * b.units()) as real,
        product(
            square_unit(),
            product(product(exact_value(a), exact_value(b)), n as real),
        ) == (a.units() * b.units() * n) as real,
        product(square_unit(), product(exact_value(a), exact_value(b))) == (a.units()
            * b.units()) as real,
{
    let (x, y, u, w, c) = (
        exact_value(a),
        exact_value(b),
        one(),
        square_unit(),
        n as real,
    );
    lemma_value(a);
    lemma_value(b);
    let (p, q) = (a.units() as real, b.units() as real);
    let xy = product(x, y);
    // The two factors, in units.
    lemma_associate(u, u, xy);
    lemma_associate(u, x, y);
    lemma_commute(u, x);
    lemma_associate(u, p, y);
    lemma_commute(u, p);
    lemma_associate(p, u, y);
    lemma_commute(u, y);
    lemma_int_product(a.units(), b.units());
    assert(product(w, xy) == product(p, q));
    // And the third one.
    lemma_associate(c, x, y);
    lemma_associate(w, c, xy);
    lemma_commute(w, c);
    lemma_associate(c, w, xy);
    lemma_int_product(n as int, a.units() * b.units());
    assert(n * a.units() * b.units() == n * (a.units() * b.units())) by (nonlinear_arith);
    lemma_associate(w, xy, c);
    lemma_int_product(a.units() * b.units(), n as int);
}

/// The sizes of four numbers, times a factor that is not negative.
proof fn lemma_sizes_in_units(a: real, b: real, c: real, d: real, w: real)
    requires
        w >= 0real,
    ensures
        product(w, size(a) + size(b) + size(c) + size(d)) == size(product(w, a)) + size(
            product(w, b),
        ) + size(product(w, c)) + size(product(w, d)),
{
    lemma_distribute(w, size(a), size(b));
    lemma_distribute(w, size(a) + size(b), size(c));
    lemma_distribute(w, size(a) + size(b) + size(c), size(d));
    lemma_size_product(a, w);
    lemma_size_product(b, w);
    lemma_size_product(c, w);
    lemma_size_product(d, w);
    lemma_commute(a, w);
    lemma_commute(b, w);
    lemma_commute(c, w);
    lemma_commute(d, w);
    lemma_commute(size(a), w);
    lemma_commute(size(b), w);
    lemma_commute(size(c), w);
    lemma_commute(size(d), w);
}

/// What rounding can move of the estimate from two codes, in units of products.
proof fn lemma_rounding_units(dim: nat, x: CodeModel<Binary32>, y: CodeModel<Binary32>, p: nat)
    requires
        p == inner(x.bits, x.codes, y.bits, y.codes),
    ensures
        ({
            let t = estimate_terms(
                dim as int,
                x.lower.units(),
                y.lower.units(),
                x.code_sum.units(),
                y.code_sum.units(),
                x.step.units(),
                y.step.units(),
                p as int,
            );
            let (a, b, c, d) = (t.0 as real, t.1 as real, t.2 as real, t.3 as real);
            let w = square_unit();
            &&& product(w, estimated(dim, exact_code(x), exact_code(y))) == a + b + c + d
            &&& product(w, estimate_rounding(dim, exact_code(x), exact_code(y))) == 7real * (size(a)
                + size(b) + size(c) + size(d)) / 16777216real + 4real * one() + size(
                y.lower.units() as real,
            ) + product(p as real, one())
        }),
{
    let (ex, ey, w, u) = (exact_code(x), exact_code(y), square_unit(), one());
    lemma_pow2_pos(149);
    lemma_positive(u, u);
    let a = product(product(dim as real, ex.lower), ey.lower);
    let b = product(ex.lower, ey.code_sum);
    let c = product(ey.lower, ex.code_sum);
    let d = product(product(ex.step, ey.step), p as real);
    lemma_units_of_terms(dim, x.lower, y.lower);
    lemma_units_of_terms(0, x.lower, y.code_sum);
    lemma_units_of_terms(0, y.lower, x.code_sum);
    lemma_units_of_terms(p, x.step, y.step);
    lemma_distribute(w, a, b);
    lemma_distribute(w, a + b, c);
    lemma_distribute(w, a + b + c, d);
    lemma_sizes_in_units(a, b, c, d, w);
    let h = half_unit();
    let tl = product(h, size(ey.lower));
    let ti = product(h, p as real);
    let terms = size(a) + size(b) + size(c) + size(d);
    let k = 7real / 16777216real;
    lemma_distribute(w, k * terms, 8real * h + 2real * tl + 2real * ti);
    lemma_distribute(w, 8real * h + 2real * tl, 2real * ti);
    lemma_distribute(w, 8real * h, 2real * tl);
    lemma_commute(w, k * terms);
    lemma_multiple(k, terms, w);
    lemma_commute(w, terms);
    lemma_commute(w, 8real * h);
    lemma_multiple(8real, h, w);
    lemma_scaled_factors(w, tl);
    lemma_scaled_factors(w, ti);
    // Half a unit, in units of products.
    lemma_value(y.lower);
    lemma_associate(h, u, u);
    lemma_multiple(1real / 2real, 1real, u);
    lemma_constant_factors(u);
    lemma_commute(h, w);
    assert(product(w, h) == u / 2real);
    lemma_associate(w, h, size(ey.lower));
    lemma_associate(w, h, p as real);
    lemma_multiple(1real / 2real, u, size(ey.lower));
    lemma_multiple(1real / 2real, u, p as real);
    lemma_commute(u, size(ey.lower));
    lemma_size_product(ey.lower, u);
    lemma_commute(u, p as real);
    assert(estimate_rounding(dim, ex, ey) == k * terms + (8real * h + 2real * tl + 2real * ti));
}

/// A number in units of products.
proof fn lemma_units_of_number(a: Binary32)
    ensures
        product(square_unit(), exact_value(a)) == (a.units() * pow2(149)) as real,
{
    let u = one();
    lemma_value(a);
    lemma_associate(u, u, exact_value(a));
    lemma_commute(u, exact_value(a));
    lemma_int_product(a.units(), pow2(149) as int);
    lemma_commute(u, a.units() as real);
}

/// The estimate from moderate codes of any dimensions, where the integer dot
/// product `p` of what both hold has at most 48 bits: as in
/// [`law_estimate_of_codes`], with the given dimension.
pub proof fn law_estimate_of_any_codes(dim: nat, x: CodeModel<Binary32>, y: CodeModel<Binary32>)
    requires
        dim <= u32::MAX,
        inner(x.bits, x.codes, y.bits, y.codes) <= 0x1_0000_0000_0000,
        moderate_code(x),
        moderate_code(y),
    ensures
        estimated(dim, x, y).finite(),
        ({
            let p = inner(x.bits, x.codes, y.bits, y.codes) as int;
            let (lx, ly) = (x.lower.units(), y.lower.units());
            let a = (dim * lx * ly) as real;
            let b = (lx * y.code_sum.units()) as real;
            let c = (ly * x.code_sum.units()) as real;
            let d = (x.step.units() * y.step.units() * p) as real;
            size((estimated(dim, x, y).units() * pow2(149)) as real - (a + b + c + d)) <= 7real * (
            size(a) + size(b) + size(c) + size(d)) / 16777216real + 4real * one() + size(ly as real)
                + product(p as real, one())
        }),
{
    lemma_any_estimate_finite(dim, x, y);
    law_estimate_rounding(dim, x, y);
    let p = inner(x.bits, x.codes, y.bits, y.codes);
    lemma_rounding_units(dim, x, y, p);
    let e = estimated(dim, x, y);
    lemma_scaled_near(
        e,
        estimated(dim, exact_code(x), exact_code(y)),
        estimate_rounding(dim, exact_code(x), exact_code(y)),
    );
    lemma_units_of_number(e);
}

/// The estimate of an inner product from two moderate codes of any widths: it is
/// finite, and with offsets `lx` and `ly`, steps `sx` and `sy`, stored sums of
/// codes `tx` and `ty` and the products `p` of the codes of all dimensions it
/// is `dim * lx * ly + lx * ty + ly * tx + sx * sy * p`, up to seven parts in
/// `2^24` of the terms and what rounding adds to the smallest numbers.
pub proof fn law_estimate_of_codes(dim: nat, x: CodeModel<Binary32>, y: CodeModel<Binary32>)
    requires
        dim <= u32::MAX,
        has_dimension(x, dim),
        has_dimension(y, dim),
        moderate_code(x),
        moderate_code(y),
    ensures
        estimated(dim, x, y).finite(),
        ({
            let p = code_products(x, y, dim);
            let (lx, ly) = (x.lower.units(), y.lower.units());
            let a = (dim * lx * ly) as real;
            let b = (lx * y.code_sum.units()) as real;
            let c = (ly * x.code_sum.units()) as real;
            let d = (x.step.units() * y.step.units() * p) as real;
            size((estimated(dim, x, y).units() * pow2(149)) as real - (a + b + c + d)) <= 7real * (
            size(a) + size(b) + size(c) + size(d)) / 16777216real + 4real * one() + size(ly as real)
                + product(p as real, one())
        }),
{
    lemma_estimate_finite(dim, x, y);
    law_estimate_of_any_codes(dim, x, y);
}

/// The distance `r` that a metric gives for squared norms `p` and `q` and an
/// inner product `e`, all in units, up to rounding: one minus `e`, minus `e`, or
/// the two norms less twice `e`.
pub open spec fn distance_near(metric: Metric, r: int, p: int, q: int, e: int) -> bool {
    let u = pow2(149) as int;
    match metric {
        Metric::Cosine => 0x100_0000 * magnitude_of(r - (u - e)) <= magnitude_of(u - e),
        Metric::Dot => r == -e,
        Metric::L2 => 0x100_0000 * magnitude_of(r - (p + q - 2 * e)) <= 4 * (magnitude_of(p + q) + 2
            * magnitude_of(e)) + 0x100_0000,
    }
}

/// The distance for moderate squared norms and inner products is finite.
proof fn lemma_metric_finite(metric: Metric, p: Binary32, q: Binary32, e: Binary32)
    requires
        p.finite() && p.magnitude() <= pow2(240),
        q.finite() && q.magnitude() <= pow2(240),
        e.finite() && e.magnitude() <= pow2(270),
    ensures
        metric_value(metric, p, q, e).finite(),
{
    lemma2_to64();
    lemma_natural_within(0, 0);
    lemma_natural_within(1, 0);
    let one = Binary32::of_nat(1);
    let (cos, l2) = (
        Binary32::of_nat(metric.cosine_weight()),
        Binary32::of_nat(metric.l2_weight()),
    );
    lemma_sum_within(p, q, 240);
    lemma_product_within(l2, p.plus(q), 149, 241, 241);
    lemma_pow2_strictly_increases(149, 241);
    let n = l2.times(p.plus(q));
    lemma_sum_within(n, cos, 241);
    lemma_sum_within(one, l2, 149);
    lemma_product_within(one.plus(l2), e, 150, 270, 271);
    lemma_pow2_strictly_increases(242, 271);
    lemma_sum_within(n.plus(cos), one.plus(l2).times(e), 271);
}

/// A distance as computed, in units.
proof fn lemma_metric_units(metric: Metric, p: Binary32, q: Binary32, e: Binary32)
    requires
        metric_value(metric, p, q, e).finite(),
    ensures
        distance_near(
            metric,
            metric_value(metric, p, q, e).units(),
            p.units(),
            q.units(),
            e.units(),
        ),
{
    let r = metric_value(metric, p, q, e);
    let u = one();
    lemma_pow2_pos(149);
    law_distance_rounding(metric, p, q, e);
    lemma_value(p);
    lemma_value(q);
    lemma_value(e);
    lemma_value(r);
    let (pv, qv, ev, rv) = (exact_value(p), exact_value(q), exact_value(e), exact_value(r));
    lemma_constant_factors(pv + qv);
    lemma_constant_factors(ev);
    let want = metric_value(metric, pv, qv, ev);
    let d = distance_rounding(metric, pv, qv, ev);
    lemma_commute(rv - want, u);
    lemma_distribute(u, rv, want);
    lemma_commute(u, rv);
    lemma_size_product(rv - want, u);
    lemma_factor_order(u, size(rv - want), d);
    match metric {
        Metric::Cosine => {
            assert(want == 1real - ev);
            lemma_distribute(u, 1real, ev);
            lemma_constant_factors(u);
            lemma_commute(u, ev);
            lemma_size_product(want, u);
            lemma_commute(want, u);
            lemma_multiple(1real / 16777216real, size(want), u);
            assert(d == 1real / 16777216real * size(want));
        },
        Metric::Dot => {
            assert(want == -ev);
            lemma_constant_factors(u);
            lemma_scaled_factors(u, ev);
            lemma_commute(u, ev);
        },
        Metric::L2 => {
            let n = pv + qv;
            assert(want == n - 2real * ev);
            lemma_distribute(u, n, 2real * ev);
            lemma_distribute(u, pv, qv);
            lemma_commute(u, pv);
            lemma_commute(u, qv);
            lemma_commute(u, ev);
            lemma_scaled_factors(u, ev);
            lemma_commute(u, n);
            lemma_commute(u, 2real * ev);
            lemma_size_product(n, u);
            lemma_size_product(2real * ev, u);
            let t = size(n) + size(2real * ev);
            lemma_distribute(u, size(n), size(2real * ev));
            lemma_commute(u, size(n));
            lemma_commute(u, size(2real * ev));
            let k = 4real / 16777216real;
            lemma_commute(d, u);
            lemma_distribute(u, k * t, 2real * half_unit());
            lemma_commute(u, k * t);
            lemma_multiple(k, t, u);
            lemma_commute(t, u);
            lemma_scaled_factors(u, half_unit());
            lemma_commute(u, half_unit());
            assert(d == k * t + 2real * half_unit());
        },
    }
}

/// The distance between two moderate codes of a quantizer's dimension, of any
/// widths, is finite: up to rounding it is one minus the estimated inner
/// product, minus the estimate, or the stored squared norms less twice the
/// estimate. So is the distance of a distancer whose query has the first code,
/// also to the flat form of the second.
pub proof fn law_distance_of_codes(
    q: QuantizerModel,
    d: DistancerModel,
    x: CodeModel<Binary32>,
    y: CodeModel<Binary32>,
)
    requires
        q.rotation.dim <= u32::MAX,
        has_dimension(x, q.rotation.dim),
        has_dimension(y, q.rotation.dim),
        moderate_code(x),
        moderate_code(y),
        d.metric == q.metric,
        d.dim == q.rotation.dim,
        d.query == x,
        d.candidate_bits == y.bits,
    ensures
        ({
            let e = estimated(q.rotation.dim, x, y);
            &&& q.distance(x, y) matches Ok(r) && r.finite() && distance_near(
                q.metric,
                r.units(),
                x.norm2.units(),
                y.norm2.units(),
                e.units(),
            )
            &&& d.distance(y) == q.distance(x, y)
            &&& d.distance_flat(flat(y)) == q.distance(x, y)
        }),
{
    let e = estimated(q.rotation.dim, x, y);
    lemma_estimate_finite(q.rotation.dim, x, y);
    lemma_metric_finite(q.metric, x.norm2, y.norm2, e);
    lemma_metric_units(q.metric, x.norm2, y.norm2, e);
    law_flat_distance(d, y);
}

/// Padded vectors in terms of entries.
proof fn lemma_padded_entries(x: Seq<Binary32>, y: Seq<Binary32>, dim: nat, n: nat)
    requires
        n <= dim,
    ensures
        dot_upto(units_of(padded(x, dim)), units_of(padded(y, dim)), n) == entry_products(
            x,
            y,
            n,
        ) as real,
    decreases n,
{
    if n > 0 {
        lemma_padded_entries(x, y, dim, (n - 1) as nat);
        lemma_zero_units();
        let k = n - 1;
        assert(units_of(padded(x, dim))[k] == entry(x, k) as real);
        assert(units_of(padded(y, dim))[k] == entry(y, k) as real);
        lemma_int_product(entry(x, k), entry(y, k));
    }
}

/// A vector of finite entries whose norm is at most `n` units, cut to `dim`
/// entries.
pub open spec fn norm_within(x: Seq<Binary32>, dim: nat, n: real) -> bool {
    &&& forall|k: int| 0 <= k < x.len() && k < dim ==> (#[trigger] x[k]).finite()
    &&& n >= 0real
    &&& entry_products(x, x, dim) as real <= product(n, n)
}

/// What is known of a padded vector by its entries.
proof fn lemma_padded_within(x: Seq<Binary32>, dim: nat, n: real)
    requires
        norm_within(x, dim, n),
    ensures
        all_finite(padded(x, dim)),
        norm2(units_of(padded(x, dim))) <= product(n, n),
{
    let p = padded(x, dim);
    lemma_zero_units();
    assert forall|k: int| 0 <= k < p.len() implies (#[trigger] p[k]).finite() by {
        if k < x.len() {
            assert(x[k].finite());
        }
    }
    lemma_padded_entries(x, x, dim, dim);
    reveal(inner_product);
}

/// A rotation whose signs are one or minus one, of up to 3000 rounds, and a
/// vector of norm at most `n` units whose rotation is spread out.
pub open spec fn well_rotated(m: RotationModel<Binary32>, x: Seq<Binary32>, n: real) -> bool {
    &&& m.well_formed()
    &&& plain_rotation(m, m.dim)
    &&& m.rounds <= 3000
    &&& m.dim <= u32::MAX
    &&& x.len() > 0
    &&& norm_within(x, m.dim, n)
    &&& spread_out(m.rotated(x))
}

/// The rotated coordinates of a vector of norm at most `2^35`.
proof fn lemma_rotated_within(m: RotationModel<Binary32>, x: Seq<Binary32>, n: real)
    requires
        well_rotated(m, x, n),
        n <= pow2(184) as real,
    ensures
        m.rotated(x).len() == m.dim,
        forall|k: int| 0 <= k < m.dim ==> (#[trigger] m.rotated(x)[k]).magnitude() <= pow2(185),
        entry_products(x, x, m.dim) <= pow2(368),
{
    lemma_padded_within(x, m.dim, n);
    lemma_pow2_strictly_increases(184, 264);
    lemma_rotated_bounded(m, x, n);
    lemma_drifted(n, m.rounds);
    let p = pow2(184) as real;
    lemma_pow2_unfold(185);
    lemma2_to64();
    lemma2_to64_rest();
    lemma_pow2_adds(48, 136);
    lemma_pow2_strictly_increases(64, 136);
    lemma_factor_order(n, n, p);
    lemma_factor_order(p, n, p);
    lemma_real_product(pow2(184), pow2(184));
    lemma_pow2_adds(184, 184);
    assert(p >= 281474976710656real) by {
        assert(pow2(184) >= 0x1_0000_0000_0000) by (nonlinear_arith)
            requires
                pow2(184) == 0x1_0000_0000_0000 * pow2(136),
                pow2(136) >= 1,
        ;
    }
    let rx = m.rotated(x);
    assert forall|k: int| 0 <= k < m.dim implies (#[trigger] rx[k]).magnitude() <= pow2(185) by {
        assert(size(units_of(rx)[k]) <= coordinate_bound(n, m.rounds));
    }
}

/// The sum of codes of at most `top`.
proof fn lemma_codes_total_within(bits: Bits, codes: Seq<u8>, n: nat, top: int)
    requires
        forall|k: int| 0 <= k < n ==> 0 <= #[trigger] code_at(bits, codes, k) <= top,
    ensures
        0 <= codes_total(bits, codes, n) <= top * n,
    decreases n,
{
    if n > 0 {
        lemma_codes_total_within(bits, codes, (n - 1) as nat, top);
        assert(0 <= code_at(bits, codes, n - 1) <= top);
        let k = n as int - 1;
        assert(top * n == top * k + top) by (nonlinear_arith)
            requires
                k == n as int - 1,
        ;
    } else {
        assert(top * 0 == 0);
    }
}

/// Offset and step of a code of coordinates of at most `2^185` units.
proof fn lemma_fields_within(c: CodeModel<Binary32>, rx: Seq<Binary32>, bits: Bits)
    requires
        stands_for(c, rx, bits),
        forall|k: int| 0 <= k < rx.len() ==> (#[trigger] rx[k]).magnitude() <= pow2(185),
    ensures
        c.lower.magnitude() <= pow2(185),
        c.step.magnitude() <= pow2(185),
        c.step.units() == c.step.magnitude(),
        bits is Four ==> 15 * c.step.magnitude() <= pow2(187),
        bits is Eight ==> 255 * c.step.magnitude() <= pow2(187),
{
    let (l, s) = (c.lower.units(), c.step.units());
    let a = choose|k: int| 0 <= k < rx.len() && (#[trigger] rx[k]).units() == l;
    assert(rx[a].magnitude() <= pow2(185));
    let top = if bits is Four {
        15int
    } else {
        255int
    };
    let b = choose|k: int|
        0 <= k < rx.len() && 0x40_0001 * ((#[trigger] rx[k]).units() - l) >= 0x40_0000 * (top * s);
    assert(rx[b].magnitude() <= pow2(185));
    lemma_pow2_unfold(186);
    lemma_pow2_unfold(187);
    assert(s > 0 && s == c.step.magnitude());
    if bits is Four {
        assert(top * s == 15 * s);
    } else {
        assert(top * s == 255 * s);
    }
}

/// The stored sum of a code of coordinates of at most `2^185` units.
proof fn lemma_sum_moderate(c: CodeModel<Binary32>, rx: Seq<Binary32>, bits: Bits, dim: nat)
    requires
        stands_for(c, rx, bits),
        rx.len() == dim <= u32::MAX,
        sum_stored(c, dim),
        c.step.units() == c.step.magnitude(),
        bits is Four ==> 15 * c.step.magnitude() <= pow2(187),
        bits is Eight ==> 255 * c.step.magnitude() <= pow2(187),
    ensures
        c.code_sum.magnitude() <= pow2(222),
{
    let top = if bits is Four {
        15int
    } else {
        255int
    };
    assert forall|k: int| 0 <= k < dim implies 0 <= #[trigger] code_at(bits, c.codes, k) <= top by {
        assert(rx[k].units() == rx[k].units());
    }
    lemma_codes_total_within(bits, c.codes, dim, top);
    let (s, t) = (c.step.units(), codes_total(bits, c.codes, dim));
    let p = pow2(187) as int;
    assert(s * t <= p * 0x1_0000_0000 && s * t >= 0) by (nonlinear_arith)
        requires
            0 <= t <= top * dim,
            dim <= 0x1_0000_0000,
            top * s <= p,
            s >= 0,
            top >= 0,
    ;
    lemma2_to64();
    lemma_pow2_adds(32, 187);
    lemma_pow2_unfold(220);
    lemma_pow2_unfold(221);
    lemma_pow2_unfold(222);
    lemma_pow2_strictly_increases(24, 219);
}

/// The stored squared norm of a vector of norm at most `2^35`.
proof fn lemma_norm_moderate(c: CodeModel<Binary32>, x: Seq<Binary32>, dim: nat)
    requires
        dim <= u32::MAX,
        norm_stored(c, x, dim),
        0 <= entry_products(x, x, dim) <= pow2(368),
    ensures
        c.norm2.magnitude() <= pow2(240),
{
    let (xx, u) = (entry_products(x, x, dim) as real, one());
    lemma_pow2_pos(149);
    let g = (dim + 1) as real;
    lemma_factor_order(xx, g, 4294967296real);
    lemma_multiple(4294967296real, 1real, xx);
    lemma_constant_factors(xx);
    lemma_factor_order(u, dim as real, 4294967296real);
    lemma_multiple(4294967296real, 1real, u);
    lemma_constant_factors(u);
    let n = c.norm2.units();
    let p = pow2(240) as real;
    let got = (n * pow2(149)) as real;
    lemma_int_product(n, pow2(149) as int);
    lemma2_to64();
    lemma_pow2_adds(20, 368);
    lemma_pow2_adds(240, 148);
    lemma_pow2_unfold(149);
    lemma_pow2_strictly_increases(182, 368);
    lemma_pow2_adds(33, 149);
    lemma2_to64_rest();
    let h = pow2(368) as real;
    assert(pow2(388) as real == 1048576real * h);
    assert(4294967296real * u * 2real <= h);
    assert(size(got) <= 600real * h);
    lemma_real_product(pow2(240), pow2(148));
    let v = pow2(148) as real;
    assert(u == 2real * v);
    lemma_scaled_factors(p, v);
    assert(size(got) <= product(p, u));
    lemma_size_product(n as real, u);
    lemma_cancel(u, size(n as real), p);
}

/// A sum of squares is not negative.
proof fn lemma_products_of_own(x: Seq<Binary32>, n: nat)
    ensures
        entry_products(x, x, n) >= 0,
    decreases n,
{
    if n > 0 {
        lemma_products_of_own(x, (n - 1) as nat);
        let a = entry(x, n - 1);
        assert(a * a >= 0) by (nonlinear_arith);
    }
}

/// A code that stands for coordinates of at most `2^185` units is moderate.
proof fn lemma_known_moderate(
    c: CodeModel<Binary32>,
    x: Seq<Binary32>,
    rx: Seq<Binary32>,
    bits: Bits,
    dim: nat,
)
    requires
        stands_for(c, rx, bits),
        rx.len() == dim <= u32::MAX,
        forall|k: int| 0 <= k < rx.len() ==> (#[trigger] rx[k]).magnitude() <= pow2(185),
        sum_stored(c, dim),
        norm_stored(c, x, dim),
        entry_products(x, x, dim) <= pow2(368),
    ensures
        moderate_code(c),
        has_dimension(c, dim),
{
    lemma_fields_within(c, rx, bits);
    lemma_sum_moderate(c, rx, bits, dim);
    lemma_products_of_own(x, dim);
    lemma_norm_moderate(c, x, dim);
}

/// What is known of the code of a vector of norm at most `2^35` whose rotation
/// is spread out.
proof fn lemma_code_known(m: RotationModel<Binary32>, x: Seq<Binary32>, bits: Bits, n: real)
    requires
        well_rotated(m, x, n),
        n <= pow2(184) as real,
    ensures
        stands_for(encoded(m, x, bits), m.rotated(x), bits),
        sum_stored(encoded(m, x, bits), m.dim),
        norm_stored(encoded(m, x, bits), x, m.dim),
        0x80_0000 <= encoded(m, x, bits).step.body() < INFINITY_BODY,
        encoded(m, x, bits).bits == bits,
        encoded(m, x, bits).dimension() == m.dim,
{
    lemma_rotated_within(m, x, n);
    lemma_encoded_stands_for(m, x, bits);
    lemma_pow2_strictly_increases(185, 230);
    lemma_pow2_strictly_increases(368, 418);
    lemma_encoded_sum(m, x, bits);
    lemma_spread_parts(m.rotated(x), bits);
    law_rotation_pads(m, x);
    lemma_encoded_norm(m, x, bits);
    law_code_size(m, x, bits);
}

/// The code of a vector of norm at most `2^35` whose rotation is spread out.
proof fn lemma_code_moderate(m: RotationModel<Binary32>, x: Seq<Binary32>, bits: Bits, n: real)
    requires
        well_rotated(m, x, n),
        n <= pow2(184) as real,
    ensures
        moderate_code(encoded(m, x, bits)),
        has_dimension(encoded(m, x, bits), m.dim),
        norm_stored(encoded(m, x, bits), x, m.dim),
        0x80_0000 <= encoded(m, x, bits).step.body() < INFINITY_BODY,
        encoded(m, x, bits).dimension() == m.dim,
        encoded(m, x, bits).bits == bits,
{
    lemma_code_known(m, x, bits, n);
    lemma_rotated_within(m, x, n);
    let c = encoded(m, x, bits);
    lemma_known_moderate(c, x, m.rotated(x), bits, m.dim);
}

/// How far a distance can be from that of the vectors, in units of products:
/// `b` bounds the error of the estimated inner product, `xx` and `yy` are the
/// squared norms, `xy` is the inner product.
pub open spec fn distance_bound(
    metric: Metric,
    b: real,
    xx: real,
    yy: real,
    xy: real,
    dim: nat,
) -> real {
    let k = 16777216real;
    match metric {
        Metric::Cosine => b + (square_unit() + size(xy) + b) / k,
        Metric::Dot => b,
        Metric::L2 => {
            let norms = 2real * product((dim + 1) as real, xx + yy) / k + 4real * product(
                dim as real,
                one(),
            );
            2real * b + norms + 4real * (xx + yy + norms + 2real * (size(xy) + b)) / k + one()
        },
    }
}

/// The distance of two vectors by their squared norms `xx` and `yy` and inner
/// product `xy`, in units of products.
pub open spec fn true_distance(metric: Metric, xx: real, yy: real, xy: real) -> real {
    match metric {
        Metric::Cosine => square_unit() - xy,
        Metric::Dot => -xy,
        Metric::L2 => xx + yy - 2real * xy,
    }
}

/// A distance in units of products.
proof fn lemma_distance_scaled(metric: Metric, r: int, p: int, q: int, e: int)
    requires
        distance_near(metric, r, p, q, e),
    ensures
        ({
            let u = pow2(149) as int;
            let (ru, pu) = ((r * u) as real, (p * u) as real);
            let (qu, eu) = ((q * u) as real, (e * u) as real);
            let (w, k) = (square_unit(), 16777216real);
            match metric {
                Metric::Cosine => k * size(ru - (w - eu)) <= size(w - eu),
                Metric::Dot => ru == -eu,
                Metric::L2 => k * size(ru - (pu + qu - 2real * eu)) <= 4real * (size(pu + qu)
                    + 2real * size(eu)) + k * one(),
            }
        }),
{
    let u = pow2(149) as int;
    let v = one();
    lemma_pow2_pos(149);
    lemma_int_product(r, u);
    lemma_int_product(p, u);
    lemma_int_product(q, u);
    lemma_int_product(e, u);
    let (rr, pr, qr, er) = (r as real, p as real, q as real, e as real);
    match metric {
        Metric::Cosine => {
            let (a, b) = (rr - (v - er), v - er);
            lemma_products_of_difference(rr, v - er, v);
            lemma_products_of_difference(v, er, v);
            lemma_size_product(a, v);
            lemma_size_product(b, v);
            lemma_multiple(16777216real, size(a), v);
            lemma_factor_order(v, 16777216real * size(a), size(b));
        },
        Metric::Dot => {
            lemma_scaled_factors(er, v);
        },
        Metric::L2 => {
            let n = pr + qr;
            let a = rr - (n - 2real * er);
            lemma_products_of_difference(rr, n - 2real * er, v);
            lemma_products_of_difference(n, 2real * er, v);
            lemma_commute(v, n);
            lemma_distribute(v, pr, qr);
            lemma_commute(v, pr);
            lemma_commute(v, qr);
            lemma_scaled_factors(er, v);
            lemma_size_product(a, v);
            lemma_size_product(n, v);
            lemma_size_product(er, v);
            let b = 4real * size(n) + 8real * size(er) + 16777216real;
            lemma_multiple(16777216real, size(a), v);
            lemma_factor_order(v, 16777216real * size(a), b);
            lemma_commute(b, v);
            lemma_distribute(v, 4real * size(n) + 8real * size(er), 16777216real);
            lemma_distribute(v, 4real * size(n), 8real * size(er));
            lemma_commute(v, 4real * size(n));
            lemma_multiple(4real, size(n), v);
            lemma_commute(v, 8real * size(er));
            lemma_multiple(8real, size(er), v);
            lemma_commute(v, 16777216real);
            lemma_multiple(16777216real, 1real, v);
            lemma_constant_factors(v);
        },
    }
}

/// A difference times a factor.
proof fn lemma_products_of_difference(a: real, b: real, v: real)
    ensures
        product(a - b, v) == product(a, v) - product(b, v),
{
    lemma_commute(a - b, v);
    lemma_distribute(v, a, b);
    lemma_commute(v, a);
    lemma_commute(v, b);
}

/// How the errors of a distance add up.
proof fn lemma_distance_errors(
    metric: Metric,
    ru: real,
    pu: real,
    qu: real,
    eu: real,
    b: real,
    xx: real,
    yy: real,
    xy: real,
    dim: nat,
)
    requires
        xx >= 0real,
        yy >= 0real,
        size(eu - xy) <= b,
        size(pu - xx) <= 2real * product((dim + 1) as real, xx) / 16777216real + 2real * product(
            dim as real,
            one(),
        ),
        size(qu - yy) <= 2real * product((dim + 1) as real, yy) / 16777216real + 2real * product(
            dim as real,
            one(),
        ),
        ({
            let (w, k) = (square_unit(), 16777216real);
            match metric {
                Metric::Cosine => k * size(ru - (w - eu)) <= size(w - eu),
                Metric::Dot => ru == -eu,
                Metric::L2 => k * size(ru - (pu + qu - 2real * eu)) <= 4real * (size(pu + qu)
                    + 2real * size(eu)) + k * one(),
            }
        }),
    ensures
        size(ru - true_distance(metric, xx, yy, xy)) <= distance_bound(metric, b, xx, yy, xy, dim),
{
    lemma_pow2_pos(149);
    lemma_square(one());
    lemma_distribute((dim + 1) as real, xx, yy);
}

/// The number `r` is finite, and near the distance of two vectors of up to
/// `dim` entries, where the error of the inner product is at most `b`.
pub open spec fn distance_of_vectors(
    metric: Metric,
    r: Binary32,
    x: Seq<Binary32>,
    y: Seq<Binary32>,
    dim: nat,
    b: real,
) -> bool {
    let xx = entry_products(x, x, dim) as real;
    let yy = entry_products(y, y, dim) as real;
    let xy = entry_products(x, y, dim) as real;
    &&& r.finite()
    &&& size((r.units() * pow2(149)) as real - true_distance(metric, xx, yy, xy))
        <= distance_bound(metric, b, xx, yy, xy, dim)
}

/// The distance of two codes whose estimate `e` is near the inner product of two
/// vectors.
proof fn lemma_near_vectors(
    metric: Metric,
    cx: CodeModel<Binary32>,
    cy: CodeModel<Binary32>,
    e: Binary32,
    x: Seq<Binary32>,
    y: Seq<Binary32>,
    dim: nat,
    b: real,
)
    requires
        moderate_code(cx),
        moderate_code(cy),
        e.finite(),
        e.magnitude() <= pow2(270),
        norm_stored(cx, x, dim),
        norm_stored(cy, y, dim),
        entry_products(x, x, dim) >= 0,
        entry_products(y, y, dim) >= 0,
        size(product(square_unit(), exact_value(e)) - entry_products(x, y, dim) as real) <= b,
    ensures
        distance_of_vectors(metric, metric_value(metric, cx.norm2, cy.norm2, e), x, y, dim, b),
{
    let (p, q) = (cx.norm2, cy.norm2);
    lemma_metric_finite(metric, p, q, e);
    lemma_metric_units(metric, p, q, e);
    let r = metric_value(metric, p, q, e);
    lemma_distance_scaled(metric, r.units(), p.units(), q.units(), e.units());
    lemma_units_of_number(e);
    let u = pow2(149) as int;
    lemma_distance_errors(
        metric,
        (r.units() * u) as real,
        (p.units() * u) as real,
        (q.units() * u) as real,
        (e.units() * u) as real,
        b,
        entry_products(x, x, dim) as real,
        entry_products(y, y, dim) as real,
        entry_products(x, y, dim) as real,
        dim,
    );
}

/// The distance between the codes of two vectors.
proof fn lemma_coded_distance(
    metric: Metric,
    m: RotationModel<Binary32>,
    x: Seq<Binary32>,
    y: Seq<Binary32>,
    bits: (Bits, Bits),
    nx: real,
    ny: real,
    root: real,
)
    requires
        well_rotated(m, x, nx),
        well_rotated(m, y, ny),
        nx <= pow2(184) as real,
        ny <= pow2(184) as real,
        root >= 0real,
        product(root, root) == m.dim as real,
    ensures
        ({
            let (cx, cy) = (encoded(m, x, bits.0), encoded(m, y, bits.1));
            let b = estimate_bound(m.dim, cx, cy, nx, ny, root, m.rounds);
            distance_outcome(metric, m.dim as usize, cx, cy) matches Ok(r) && distance_of_vectors(
                metric,
                r,
                x,
                y,
                m.dim,
                b,
            )
        }),
{
    lemma_code_moderate(m, x, bits.0, nx);
    lemma_code_moderate(m, y, bits.1, ny);
    lemma_padded_within(x, m.dim, nx);
    lemma_padded_within(y, m.dim, ny);
    lemma_pow2_strictly_increases(184, 264);
    let (cx, cy) = (encoded(m, x, bits.0), encoded(m, y, bits.1));
    lemma_estimate_finite(m.dim, cx, cy);
    law_estimate_close(m, x, y, bits, nx, ny, root);
    lemma_padded_entries(x, y, m.dim, m.dim);
    lemma_products_of_own(x, m.dim);
    lemma_products_of_own(y, m.dim);
    let b = estimate_bound(m.dim, cx, cy, nx, ny, root, m.rounds);
    let xy = entry_products(x, y, m.dim) as real;
    assert(inner_product(units_of(padded(x, m.dim)), units_of(padded(y, m.dim))) == xy) by {
        reveal(inner_product);
    }
    lemma_near_vectors(metric, cx, cy, estimated(m.dim, cx, cy), x, y, m.dim, b);
}

/// The distance between the codes that a quantizer gives two vectors, also from
/// a distancer and also to flat bytes: it is finite and near the distance of the
/// vectors, which is one minus their inner product, minus the inner product, or
/// the squared norm of their difference. It is off by at most the bound of the
/// estimate, that of the squared norms, and rounding. `nx` and `ny` bound the
/// norms, and the square of `root` is the dimension.
pub proof fn law_distance_of_vectors(
    q: QuantizerModel,
    x: Seq<Binary32>,
    y: Seq<Binary32>,
    nx: real,
    ny: real,
    root: real,
)
    requires
        well_rotated(q.rotation, x, nx),
        well_rotated(q.rotation, y, ny),
        nx <= pow2(184) as real,
        ny <= pow2(184) as real,
        root >= 0real,
        product(root, root) == q.rotation.dim as real,
    ensures
        ({
            let m = q.rotation;
            let (cx, cy) = (q.code_of(x), q.code_of(y));
            let d = q.distancer(x);
            &&& q.distance(cx, cy) matches Ok(r) && distance_of_vectors(
                q.metric,
                r,
                x,
                y,
                m.dim,
                estimate_bound(m.dim, cx, cy, nx, ny, root, m.rounds),
            )
            &&& d.distance(cy) matches Ok(r) && distance_of_vectors(
                q.metric,
                r,
                x,
                y,
                m.dim,
                estimate_bound(m.dim, d.query, cy, nx, ny, root, m.rounds),
            )
            &&& d.distance_flat(flat(cy)) == d.distance(cy)
        }),
{
    let m = q.rotation;
    lemma_coded_distance(q.metric, m, x, y, (q.bits, q.bits), nx, ny, root);
    lemma_coded_distance(q.metric, m, x, y, (Bits::Eight, q.bits), nx, ny, root);
    lemma_code_known(m, y, q.bits, ny);
    law_flat_distance(q.distancer(x), q.code_of(y));
}

/// What is restored from a code that holds `dim` dimensions, with an offset and
/// a step of at most `2^112`: for each dimension the offset plus the step times
/// its code, up to one part in `2^24` of the offset and three of the product.
pub proof fn law_restored_values(c: CodeModel<Binary32>, dim: nat, k: int)
    requires
        has_dimension(c, dim),
        c.lower.finite() && c.lower.magnitude() <= pow2(261),
        c.step.finite() && c.step.magnitude() <= pow2(261),
        !c.step.negative(),
        0 <= k < dim,
    ensures
        c.restored().len() == dim,
        ({
            let r = c.restored()[k];
            let g = code_at(c.bits, c.codes, k) * c.step.units();
            let e = r.units() - (c.lower.units() + g);
            &&& r.finite()
            &&& 0x100_0000 * e <= c.lower.magnitude() + 3 * g
            &&& -(0x100_0000 * e) <= c.lower.magnitude() + 3 * g
        }),
{
    let d = digits(c.bits, c.codes);
    let g = d[k];
    assert(g == code_at(c.bits, c.codes, k));
    let (s, p) = (c.step.magnitude(), pow2(261));
    assert(g * s <= 255 * p) by (nonlinear_arith)
        requires
            g <= 255,
            s <= p,
    ;
    lemma2_to64();
    lemma_pow2_adds(8, 261);
    lemma_pow2_strictly_increases(261, 270);
    lemma_pow2_strictly_increases(269, 270);
    lemma_restored_finite(c.lower, c.step, g);
    lemma_restored_value(c.lower, c.step, g);
}

proof fn lemma_powers_up()
    ensures
        4real * (pow2(262) as real) == pow2(264) as real,
        pow2(262) as real >= 281474976710656real,
{
    lemma2_to64();
    lemma_pow2_adds(2, 262);
    lemma_pow2_adds(48, 214);
    lemma_pow2_pos(214);
    lemma2_to64_rest();
    assert(pow2(262) >= 0x1_0000_0000_0000) by (nonlinear_arith)
        requires
            pow2(262) == 0x1_0000_0000_0000 * pow2(214),
            pow2(214) >= 1,
    ;
}

/// A rotation whose signs are one or minus one, with another output dimension.
proof fn lemma_plain_in_dimension(m: RotationModel<Binary32>, dim: nat)
    requires
        plain_rotation(m, dim),
    ensures
        plain_rotation(with_dimension(m, dim), dim),
{
    let a = with_dimension(m, dim);
    assert forall|r: int, k: int| 0 <= r < a.rounds && 0 <= k < a.swaps[r].len() implies ({
        let s = #[trigger] a.swaps[r][k];
        &&& s.i < dim && s.i < a.signs[r].len()
        &&& s.j < dim && s.j < a.signs[r].len()
    }) by {
        assert(m.swaps[r][k] == a.swaps[r][k]);
    }
    assert forall|r: int, k: int| 0 <= r < a.rounds && 0 <= k < a.signs[r].len() implies is_sign(
        #[trigger] a.signs[r][k],
    ) by {
        assert(is_sign(m.signs[r][k]));
    }
}

/// A vector that is rotated back and rotated again.
proof fn lemma_rotates_back(m: RotationModel<Binary32>, r: Seq<Binary32>, n: real)
    requires
        m.well_formed(),
        plain_rotation(m, m.dim),
        m.rounds <= 3000,
        m.dim <= u32::MAX,
        r.len() == m.dim,
        norm_within(r, m.dim, n),
        n <= pow2(262) as real,
    ensures
        m.unrotated(r).len() == m.dim,
        forall|k: int| 0 <= k < m.dim ==> (#[trigger] m.unrotated(r)[k]).finite(),
        ({
            let again = m.rotated(m.unrotated(r));
            let b = drifted(n, m.rounds) + drifted(coordinate_bound(n, m.rounds), m.rounds);
            forall|k: int|
                0 <= k < m.dim ==> (#[trigger] again[k]).finite() && size(
                    again[k].units() as real - r[k].units() as real,
                ) <= b
        }),
{
    let y = m.unrotated(r);
    lemma_padded_within(r, m.dim, n);
    assert(padded(r, m.dim) =~= r);
    lemma_powers_up();
    lemma_unrotation_off(m, r, n);
    let e = exact_rotation(m);
    let (ur, uy) = (units_of(r), units_of(y));
    let back = e.unrotated(ur);
    lemma_plain_signed(m, m.dim);
    law_rotation_undone(e, ur, ur);
    law_rotation_orthogonal(e, back, back);
    let d1 = drifted(n, m.rounds);
    let off = differences(uy, back);
    lemma_sum_of_norms(back, off, n, d1);
    assert(uy =~= sums(back, off));
    let n2 = coordinate_bound(n, m.rounds);
    lemma_drifted(n, m.rounds);
    assert(padded(y, m.dim) =~= y);
    lemma_rotation_off(m, y, n2);
    law_rotation_keeps(e, uy, back);
    assert(padded(uy, m.dim) =~= uy);
    assert(padded(back, m.dim) =~= back);
    let again = units_of(m.rotated(y));
    let d2 = drifted(n2, m.rounds);
    let turned = e.rotated(uy);
    let (p, s) = (differences(again, turned), differences(turned, ur));
    lemma_sum_of_norms(p, s, d2, d1);
    let all = differences(again, ur);
    assert(all =~= sums(p, s));
    assert forall|k: int| 0 <= k < m.dim implies (#[trigger] m.rotated(y)[k]).finite() && size(
        m.rotated(y)[k].units() as real - r[k].units() as real,
    ) <= d1 + d2 by {
        lemma_element_bound(all, d2 + d1, k);
        assert(all[k] == m.rotated(y)[k].units() as real - r[k].units() as real);
    }
}

/// Decoding any code of a dimension that the rotation applies to undoes the
/// rotation: the decoded vector, rotated again in that dimension, is the vector
/// that is restored from the code, up to the drift of the two rotations, in
/// every coordinate. `n` bounds the norm of the restored vector.
#[verifier::rlimit(40)]
pub proof fn law_decoded_rotates_back(q: QuantizerModel, c: CodeModel<Binary32>, dim: nat, n: real)
    requires
        dim % 64 == 0,
        0 < dim <= u32::MAX,
        plain_rotation(q.rotation, dim),
        q.rotation.rounds <= 3000,
        has_dimension(c, dim),
        norm_within(c.restored(), dim, n),
        n <= pow2(262) as real,
    ensures
        q.decoded(c).len() == dim,
        forall|k: int| 0 <= k < dim ==> (#[trigger] q.decoded(c)[k]).finite(),
        ({
            let rounds = q.rotation.rounds;
            let again = with_dimension(q.rotation, dim).rotated(q.decoded(c));
            let b = drifted(n, rounds) + drifted(coordinate_bound(n, rounds), rounds);
            forall|k: int|
                0 <= k < dim ==> (#[trigger] again[k]).finite() && size(
                    again[k].units() as real - c.restored()[k].units() as real,
                ) <= b
        }),
{
    let m = with_dimension(q.rotation, dim);
    lemma_plain_in_dimension(q.rotation, dim);
    lemma_same_backward(q.rotation, m, c.restored(), m.rounds);
    assert(c.restored().len() == dim);
    lemma_rotates_back(m, c.restored(), n);
}

/// The share of a bound `b` on the coordinates by which a restored coordinate
/// can be off: half of one part in the largest code, of twice the bound, and a
/// bit more.
pub open spec fn coordinate_share(bits: Bits, b: real) -> real {
    match bits {
        Bits::Four => b / 14real,
        Bits::Eight => b / 254real,
    }
}

/// The error of a restored coordinate against a bound on the coordinates: `s` is
/// the step, `l` the offset, `t` the range and `f` the error.
proof fn lemma_share(bits: Bits, b: real, s: real, l: real, t: real, f: real)
    requires
        size(l) <= b,
        0real <= t <= 2real * b,
        bits is Four ==> 4194304real * (15real * s) <= 4194305real * t,
        bits is Eight ==> 4194304real * (255real * s) <= 4194305real * t,
        bits is Four ==> 16777216real * f <= 8388699real * s + size(l),
        bits is Eight ==> 16777216real * f <= 8390139real * s + size(l),
    ensures
        f <= coordinate_share(bits, b),
{
}

/// The restored coordinates of the code of a vector.
proof fn lemma_restored_shares(c: CodeModel<Binary32>, rx: Seq<Binary32>, bits: Bits, b: real)
    requires
        stands_for(c, rx, bits),
        forall|k: int| 0 <= k < rx.len() ==> size(#[trigger] units_of(rx)[k]) <= b,
    ensures
        all_finite(c.restored()),
        forall|k: int|
            0 <= k < rx.len() ==> size(
                (#[trigger] c.restored()[k]).units() as real - rx[k].units() as real,
            ) <= coordinate_share(bits, b),
{
    let (l, s) = (c.lower.units(), c.step.units());
    let top = if bits is Four {
        15int
    } else {
        255int
    };
    let i = choose|k: int| 0 <= k < rx.len() && (#[trigger] rx[k]).units() == l;
    let j = choose|k: int|
        0 <= k < rx.len() && 0x40_0001 * ((#[trigger] rx[k]).units() - l) >= 0x40_0000 * (top * s);
    let t = rx[j].units() - l;
    assert(size(units_of(rx)[i]) <= b && size(units_of(rx)[j]) <= b);
    if bits is Four {
        assert(top * s == 15 * s);
    } else {
        assert(top * s == 255 * s);
    }
    assert forall|k: int| 0 <= k < rx.len() implies (#[trigger] c.restored()[k]).finite() && size(
        c.restored()[k].units() as real - rx[k].units() as real,
    ) <= coordinate_share(bits, b) by {
        let v = rx[k].units();
        let f = c.restored()[k].units() - v;
        if bits is Four {
            assert((0x80_0001 + 6 * top) * s == 8388699 * s);
        } else {
            assert((0x80_0001 + 6 * top) * s == 8390139 * s);
        }
        lemma_share(bits, b, s as real, l as real, t as real, size(f as real));
    }
}

/// What a quantizer decodes from the code that it gave a vector, also from the
/// flat bytes of the code: as many entries as the output dimension, each near
/// the entry of the vector, zero where the vector has none. The bound is that of
/// a restored vector whose coordinates are off by `coordinate_share`. `n` bounds
/// the norm, and the square of `root` is the dimension.
pub proof fn law_decoded_vector(q: QuantizerModel, x: Seq<Binary32>, n: real, root: real)
    requires
        well_rotated(q.rotation, x, n),
        n <= pow2(240) as real,
        root >= 0real,
        product(root, root) == q.rotation.dim as real,
    ensures
        ({
            let m = q.rotation;
            let y = q.decoded(q.code_of(x));
            let h = coordinate_share(q.bits, coordinate_bound(n, m.rounds));
            let bound = decoded_bound(product(root, h), n, m.rounds);
            &&& q.read(flat(q.code_of(x))) == Ok::<_, Error>(q.code_of(x))
            &&& y.len() == m.dim
            &&& forall|k: int|
                0 <= k < m.dim ==> (#[trigger] y[k]).finite() && size(
                    y[k].units() as real - entry(x, k) as real,
                ) <= bound
        }),
{
    let m = q.rotation;
    let (c, rx) = (q.code_of(x), m.rotated(x));
    lemma_padded_within(x, m.dim, n);
    lemma_pow2_strictly_increases(240, 264);
    lemma_pow2_strictly_increases(240, 262);
    lemma_rotated_bounded(m, x, n);
    lemma_encoded_stands_for(m, x, q.bits);
    let b = coordinate_bound(n, m.rounds);
    let h = coordinate_share(q.bits, b);
    lemma_restored_shares(c, rx, q.bits, b);
    lemma_drifted(n, m.rounds);
    lemma_multiple(65536real, 1real, 65536real);
    lemma_constant_factors(65536real);
    lemma_root_order(root, 65536real);
    lemma_factor_order(h, root, 65536real);
    lemma_multiple(65536real, 1real, h);
    lemma_constant_factors(h);
    lemma_powers_up();
    lemma_pow2_adds(22, 240);
    lemma2_to64();
    lemma_pow2_adds(48, 192);
    lemma_pow2_pos(192);
    lemma2_to64_rest();
    assert(pow2(240) >= 0x1_0000_0000_0000) by (nonlinear_arith)
        requires
            pow2(240) == 0x1_0000_0000_0000 * pow2(192),
            pow2(192) >= 1,
    ;
    law_decoded_close(m, x, c.restored(), n, h, root);
    law_encode_then_read(q, x);
    let y = q.decoded(c);
    let off = differences(units_of(y), units_of(padded(x, m.dim)));
    lemma_zero_units();
    assert forall|k: int| 0 <= k < m.dim implies (#[trigger] y[k]).finite() && size(
        y[k].units() as real - entry(x, k) as real,
    ) <= decoded_bound(product(root, h), n, m.rounds) by {
        assert(off[k] == y[k].units() as real - entry(x, k) as real);
    }
}

/// A code of `dim` dimensions with nothing in it: metadata of positive zero and
/// code bytes of zero.
pub open spec fn empty_code(c: CodeModel<Binary32>, bits: Bits, dim: nat) -> bool {
    &&& c.bits == bits
    &&& has_dimension(c, dim)
    &&& c.lower.bits == 0
    &&& c.step.bits == 0
    &&& c.code_sum.bits == 0
    &&& c.norm2.bits == 0
    &&& forall|k: int| 0 <= k < c.codes.len() ==> #[trigger] c.codes[k] == 0
}

proof fn lemma_nothing_to_encode(m: RotationModel<Binary32>, x: Seq<Binary32>, bits: Bits)
    requires
        m.well_formed(),
        m.applies_to(m.dim),
        finite_signs(m),
        ({
            let rx = m.rotated(x);
            ||| forall|k: int| 0 <= k < x.len() && k < m.dim ==> (#[trigger] x[k]).is_zero()
            ||| forall|k: int|
                0 <= k < rx.len() ==> (#[trigger] rx[k]).finite() && rx[k].units() == rx[0].units()
        }),
    ensures
        empty_code(encoded(m, x, bits), bits, m.dim),
{
    let (rx, used) = (m.rotated(x), cut(x, m.dim));
    law_rotation_pads(m, x);
    law_rotated_dimension(m, x);
    let n = m.dim;
    assert(n % 64 == 0 ==> n % 2 == 0);
    if forall|k: int| 0 <= k < x.len() && k < m.dim ==> (#[trigger] x[k]).is_zero() {
        assert forall|k: int| 0 <= k < used.len() implies (#[trigger] used[k]).is_zero() by {
            assert(used[k] == x[k]);
        }
        law_zero_vector(m, used, bits);
        law_encode_cuts(m, x, bits);
    } else {
        assert forall|k: int| 0 <= k < m.dim implies (#[trigger] rx[k]).key() == rx[0].key() by {
            assert(rx[k].finite() && rx[k].units() == rx[0].units());
            assert(rx[0].finite());
            law_key_order(rx[k], rx[0]);
        }
        law_no_spread(m, x, bits);
    }
}

/// A vector without entries, whose used entries are all zero, or whose rotated
/// coordinates are finite and all equal has an empty code, at both widths.
pub proof fn law_nothing_to_encode(q: QuantizerModel, x: Seq<Binary32>)
    requires
        q.rotation.well_formed(),
        q.rotation.applies_to(q.rotation.dim),
        finite_signs(q.rotation),
        ({
            let rx = q.rotation.rotated(x);
            ||| forall|k: int|
                0 <= k < x.len() && k < q.rotation.dim ==> (#[trigger] x[k]).is_zero()
            ||| forall|k: int|
                0 <= k < rx.len() ==> (#[trigger] rx[k]).finite() && rx[k].units() == rx[0].units()
        }),
    ensures
        empty_code(q.code_of(x), q.bits, q.rotation.dim),
        empty_code(q.distancer(x).query, Bits::Eight, q.rotation.dim),
{
    lemma_nothing_to_encode(q.rotation, x, q.bits);
    lemma_nothing_to_encode(q.rotation, x, Bits::Eight);
}

/// The distance of a code of squared norm `norm2` from nothing.
pub open spec fn distance_from_nothing(metric: Metric, r: Binary32, norm2: Binary32) -> bool {
    &&& r.finite()
    &&& metric is Cosine ==> r.units() == pow2(149)
    &&& metric is Dot ==> r.units() == 0
    &&& metric is L2 ==> r.units() == norm2.units()
}

/// An empty code is the zero code.
proof fn lemma_empty_is_zero(z: CodeModel<Binary32>, dim: nat)
    requires
        empty_code(z, z.bits, dim),
    ensures
        z == zero_code(dim, z.bits),
{
    assert(z.codes =~= zero_code(dim, z.bits).codes);
    assert(z =~= zero_code(dim, z.bits));
}

/// A distance from the zero code, in units.
proof fn lemma_zero_answer(metric: Metric, r: Binary32, norm2: Binary32)
    requires
        zero_answer(metric, r, norm2),
    ensures
        distance_from_nothing(metric, r, norm2),
{
    if metric is Cosine {
        lemma_sign_values();
        lemma_value(r);
        lemma_constant_factors(one());
    }
}

/// An empty code is at distance one from every code of the quantizer's dimension
/// under the cosine metric, at distance zero under the dot metric, and as far as
/// the squared norm of the other code under the squared Euclidean metric,
/// whichever of the two comes first; as the second one, where the dimension
/// times the offset of the other does not overflow.
pub proof fn law_distance_from_nothing(
    q: QuantizerModel,
    z: CodeModel<Binary32>,
    y: CodeModel<Binary32>,
)
    requires
        q.rotation.dim <= usize::MAX,
        empty_code(z, z.bits, q.rotation.dim),
        has_dimension(y, q.rotation.dim),
        finite_code(y),
    ensures
        q.distance(z, y) matches Ok(r) && distance_from_nothing(q.metric, r, y.norm2),
        q.distance(y, z) is Ok,
        Binary32::of_nat(q.rotation.dim).times(y.lower).finite() ==> distance_from_nothing(
            q.metric,
            q.distance(y, z)->Ok_0,
            y.norm2,
        ),
{
    let dim = q.rotation.dim;
    lemma_empty_is_zero(z, dim);
    law_zero_distance(q.metric, dim as usize, z.bits, y);
    let (a, b) = (q.distance(z, y)->Ok_0, q.distance(y, z)->Ok_0);
    if zero_answer(q.metric, a, y.norm2) {
        lemma_zero_answer(q.metric, a, y.norm2);
    }
    if zero_answer(q.metric, b, y.norm2) {
        lemma_zero_answer(q.metric, b, y.norm2);
    }
}

/// Which vectors can be encoded: with a rotation that applies, all of up to 16.8
/// million output dimensions, and above that those whose codes add up to at most
/// 32 bits.
pub proof fn law_encoding_accepted(q: QuantizerModel, x: Seq<Binary32>)
    requires
        q.rotation.well_formed(),
        q.rotation.applies_to(q.rotation.dim),
    ensures
        encodable(q.rotation, x),
        q.rotation.dim <= 16_843_009 ==> total_fits(q.rotation, x, q.bits) && total_fits(
            q.rotation,
            x,
            Bits::Eight,
        ),
        q.rotation.dim > 16_843_009 && x.len() > 0 && spread_out(q.rotation.rotated(x))
            ==> total_fits(q.rotation, x, q.bits) == (codes_total(
            q.bits,
            q.code_of(x).codes,
            q.rotation.dim,
        ) <= u32::MAX),
{
    let m = q.rotation;
    if x.len() > 0 && spread_out(m.rotated(x)) {
        let (c, rx, bits) = (q.code_of(x), m.rotated(x), q.bits);
        law_rotation_pads(m, x);
        law_rotated_dimension(m, x);
        lemma_spread_parts(rx, bits);
        law_code_size(m, x, bits);
        law_codes_kept(m, x, bits);
        let d = digits_of(rx, offset_of(rx), step_of(rx, bits), bits);
        lemma_totals(d, d.len());
        lemma_codes_total(bits, c.codes, m.dim);
        assert(stored_total(d, bits) == code_total(d, d.len()));
    }
}

/// Which codes of a quantizer's dimension can be compared: all of up to 66
/// thousand dimensions, and above that those of at most 66 thousand code bytes,
/// or whose products add up to at most 32 bits.
pub proof fn law_comparing_accepted(dim: nat, x: CodeModel<Binary32>, y: CodeModel<Binary32>)
    ensures
        dim <= 66_051 ==> distance_fits(dim, x, y),
        has_dimension(x, dim) && has_dimension(y, dim) ==> distance_fits(dim, x, y) == (dim
            <= 66_051 || x.codes.len() <= 66_051 || y.codes.len() <= 66_051 || code_products(
            x,
            y,
            dim,
        ) <= u32::MAX),
{
    if has_dimension(x, dim) && has_dimension(y, dim) {
        law_kernels_agree(x.bits, x.codes, y.bits, y.codes);
        lemma_code_products(x, y, dim, dim);
    }
}

/// The number of dimensions that the code bytes of a code hold.
pub open spec fn dimensions(c: CodeModel<Binary32>) -> nat {
    match c.bits {
        Bits::Eight => c.codes.len(),
        Bits::Four => 2 * c.codes.len(),
    }
}

/// The answer for a code of `actual` dimensions where `expected` are expected.
pub open spec fn mismatch(expected: nat, actual: nat) -> core::result::Result<Binary32, Error> {
    Err(
        Error::DimensionMismatch {
            expected: expected as usize,
            actual: if actual <= usize::MAX {
                actual as usize
            } else {
                usize::MAX
            },
        },
    )
}

/// Two codes have a distance exactly where both have the output dimension;
/// otherwise the dimension of the first one that has not is answered. So it is
/// with a distancer and its query.
pub proof fn law_distance_refused(
    q: QuantizerModel,
    d: DistancerModel,
    x: CodeModel<Binary32>,
    y: CodeModel<Binary32>,
)
    requires
        q.rotation.dim <= usize::MAX,
        d.dim == q.rotation.dim,
        d.query == x,
    ensures
        ({
            let dim = q.rotation.dim;
            &&& dimensions(x) != dim ==> q.distance(x, y) == mismatch(dim, dimensions(x))
            &&& dimensions(x) == dim && dimensions(y) != dim ==> q.distance(x, y) == mismatch(
                dim,
                dimensions(y),
            )
            &&& dimensions(x) == dim && dimensions(y) == dim ==> {
                &&& q.distance(x, y) is Ok
                &&& d.distance(y) is Ok
            }
            &&& dimensions(x) != dim || dimensions(y) != dim ==> d.distance(y) == q.distance(x, y)
        }),
{
}

/// The weights of a metric: one for the cosine distance in the first place, one
/// for the squared Euclidean distance in the second, zero elsewhere.
pub proof fn law_metric_weights(metric: Metric)
    ensures
        ({
            let cos = Binary32::of_nat(metric.cosine_weight());
            let l2 = Binary32::of_nat(metric.l2_weight());
            &&& cos.finite() && cos.units() == if metric is Cosine {
                pow2(149) as int
            } else {
                0
            }
            &&& l2.finite() && l2.units() == if metric is L2 {
                pow2(149) as int
            } else {
                0
            }
        }),
{
    lemma_small_number(0);
    lemma_small_number(1);
    assert(0 * pow2(149) == 0 && 1 * pow2(149) == pow2(149));
}

/// What a quantizer scores of flat bytes is what it reads of them: bytes that
/// are read as a code are as far from the query as that code.
pub proof fn law_bytes_scored(q: QuantizerModel, query: Seq<Binary32>, b: Seq<u8>)
    requires
        q.rotation.well_formed(),
        q.read(b) is Ok,
    ensures
        q.distancer(query).distance_flat(b) == q.distancer(query).distance(q.read(b)->Ok_0),
{
}

/// The bound on a decoded entry in plain numbers: `p` is the norm times the root
/// of the dimension, `b` bounds the coordinates, `a` is the root times the share
/// of `b`, and `d` and `e` are the drifts of the two rotations.
proof fn lemma_decoded_plain(bits: Bits, n: real, p: real, b: real, a: real, d: real, e: real)
    requires
        n >= 0real,
        p >= 8real * n,
        0real <= d <= 147real * (n + 281474976710656real) / 100000000real,
        b == n + d,
        0real <= e <= 147real * (b + a + 281474976710656real) / 100000000real,
        bits is Four ==> a <= (p + 147real * (p + 18446744073709551616real) / 100000000real)
            / 14real,
        bits is Eight ==> a <= (p + 147real * (p + 18446744073709551616real) / 100000000real)
            / 254real,
    ensures
        bits is Four ==> 13real * (a + d + e) <= p + 288230376151711744real,
        bits is Eight ==> 253real * (a + d + e) <= p + 288230376151711744real,
{
}

/// The root of the dimension times the share of a bound on the coordinates.
proof fn lemma_rooted_share(bits: Bits, n: real, d: real, root: real)
    requires
        n >= 0real,
        0real <= d <= 147real * (n + 281474976710656real) / 100000000real,
        0real <= root <= 65536real,
    ensures
        ({
            let p = product(root, n);
            let a = product(root, coordinate_share(bits, n + d));
            let most = p + 147real * (p + 18446744073709551616real) / 100000000real;
            &&& bits is Four ==> a <= most / 14real
            &&& bits is Eight ==> a <= most / 254real
        }),
{
    let c = 281474976710656real;
    let k = 147real / 100000000real;
    let b = n + d;
    let top = n + k * (n + c);
    lemma_factor_order(root, b, top);
    lemma_distribute(root, n, k * (n + c));
    lemma_commute(root, k * (n + c));
    lemma_multiple(k, n + c, root);
    lemma_commute(n + c, root);
    lemma_distribute(root, n, c);
    lemma_factor_order(c, root, 65536real);
    lemma_multiple(65536real, 1real, c);
    lemma_constant_factors(c);
    lemma_commute(root, b);
    let (f, e) = (1real / 14real, 1real / 254real);
    lemma_multiple(f, b, root);
    lemma_multiple(e, b, root);
    lemma_commute(root, f * b);
    lemma_commute(root, e * b);
}

/// Decoding in plain numbers: with a rotation of at most three rounds, every
/// entry that is decoded from the code of a vector is off by at most the norm of
/// the vector times the root of the dimension, over 253 with 8 bits and over 13
/// with 4 bits, and what rounding adds to the smallest numbers.
pub proof fn law_decoded_plain(q: QuantizerModel, x: Seq<Binary32>, n: real, root: real, k: int)
    requires
        well_rotated(q.rotation, x, n),
        q.rotation.rounds <= 3,
        n <= pow2(240) as real,
        root >= 0real,
        product(root, root) == q.rotation.dim as real,
        0 <= k < q.rotation.dim,
    ensures
        ({
            let y = q.decoded(q.code_of(x));
            let e = size(y[k].units() as real - entry(x, k) as real);
            &&& y.len() == q.rotation.dim
            &&& y[k].finite()
            &&& q.bits is Eight ==> 253real * e <= product(root, n) + 288230376151711744real
            &&& q.bits is Four ==> 13real * e <= product(root, n) + 288230376151711744real
        }),
{
    let m = q.rotation;
    law_decoded_vector(q, x, n, root);
    lemma_drifted(n, m.rounds);
    let d = drifted(n, m.rounds);
    let b = coordinate_bound(n, m.rounds);
    let a = product(root, coordinate_share(q.bits, b));
    lemma_multiple(65536real, 1real, 65536real);
    lemma_constant_factors(65536real);
    lemma_root_order(root, 65536real);
    lemma_multiple(8real, 1real, 8real);
    lemma_constant_factors(8real);
    lemma_root_order(8real, root);
    lemma_rooted_share(q.bits, n, d, root);
    lemma_positive(root, coordinate_share(q.bits, b));
    lemma_drifted(b + a, m.rounds);
    lemma_factor_order(n, 8real, root);
    lemma_multiple(8real, 1real, n);
    lemma_constant_factors(n);
    lemma_decoded_plain(q.bits, n, product(root, n), b, a, d, drifted(b + a, m.rounds));
    assert(q.decoded(q.code_of(x))[k].finite());
}

/// A vector can be rotated where it has no entries or the rotation applies to
/// its output dimension, and not otherwise.
pub proof fn law_rotatable(q: QuantizerModel, x: Seq<Binary32>)
    ensures
        encodable(q.rotation, x) <==> x.len() == 0 || q.rotation.applies_to(q.rotation.dim),
{
}

/// Which flat candidates can be compared with a query: those too short to hold
/// the metadata, which are answered without a comparison, and those whose codes
/// can be.
pub proof fn law_bytes_comparable(d: DistancerModel, c: CodeModel<Binary32>, b: Seq<u8>)
    requires
        c.bits == d.candidate_bits,
    ensures
        b.len() < 16 ==> d.fits_flat(b),
        d.fits_flat(flat(c)) == distance_fits(d.dim as nat, d.query, c),
{
    law_flat_then_parse(c);
}

} // verus!
