//! What codes keep of the vectors they stand for, without rounding.

#[allow(unused_imports)]
use crate::algebra::{
    lemma_associate, lemma_cancel, lemma_commute, lemma_constant_factors, lemma_distribute,
    lemma_factor_order, lemma_quotient_product, lemma_real_product, lemma_scaled_factors,
    lemma_sums, product, quotient,
};
#[allow(unused_imports)]
use crate::arith::Arithmetic;
use crate::code::{Bits, CodeModel};
#[allow(unused_imports)]
use crate::code::digits;
#[allow(unused_imports)]
use crate::encoding::{code_total, digit, digits_of, dot_upto, level, packed, quantized};
#[allow(unused_imports)]
use crate::estimate::{estimated, metric_value, Metric};
#[allow(unused_imports)]
use crate::exact::{
    differences, inner_product, law_rotation_orthogonal, law_rotation_undone,
    law_unrotated_dimension, signed_rotation,
};
#[allow(unused_imports)]
use crate::kernels::{law_kernels_agree, sum_of_products};
#[allow(unused_imports)]
use crate::rotation::{padded, RotationModel};
use vstd::arithmetic::power2::lemma2_to64;
use vstd::prelude::*;

verus! {

/// The sum of the first `n` codes.
pub open spec fn total(d: Seq<nat>, n: nat) -> nat
    decreases n,
{
    if n == 0 {
        0
    } else {
        total(d, (n - 1) as nat) + d[n - 1]
    }
}

/// The two nibbles of a packed byte.
proof fn lemma_nibbles(lo: u8, hi: u8)
    requires
        lo <= 15,
        hi <= 15,
    ensures
        (lo | (hi << 4)) % 16 == lo,
        (lo | (hi << 4)) / 16 == hi,
{
    assert((lo | (hi << 4)) % 16 == lo && (lo | (hi << 4)) / 16 == hi) by (bit_vector)
        requires
            lo <= 15,
            hi <= 15,
    ;
}

/// Packing keeps every code, each in its own place.
pub proof fn law_pack_then_unpack(d: Seq<u8>, bits: Bits)
    requires
        forall|k: int| 0 <= k < d.len() ==> #[trigger] d[k] <= bits.top(),
        bits is Four ==> d.len() % 2 == 0,
    ensures
        packed(d, bits).len() == bits.bytes_for(d.len()),
        digits(bits, packed(d, bits)) == Seq::new(d.len(), |k: int| d[k] as nat),
{
    let want = Seq::new(d.len(), |k: int| d[k] as nat);
    let got = digits(bits, packed(d, bits));
    if bits is Four {
        let half = (d.len() / 2) as int;
        assert forall|k: int| 0 <= k < d.len() implies #[trigger] got[k] == want[k] by {
            if k < half {
                lemma_nibbles(d[k], d[k + half]);
            } else {
                lemma_nibbles(d[k - half], d[k]);
            }
        }
    }
    assert(got =~= want);
}

/// The sum of codes is that of their values.
pub proof fn lemma_totals(d: Seq<u8>, n: nat)
    requires
        n <= d.len(),
    ensures
        code_total(d, n) == total(Seq::new(d.len(), |k: int| d[k] as nat), n),
    decreases n,
{
    if n > 0 {
        lemma_totals(d, (n - 1) as nat);
    }
}

/// The code sum of a code is its step times the sum of its codes.
pub open spec fn sum_is_kept(c: CodeModel<real>) -> bool {
    let d = digits(c.bits, c.codes);
    c.code_sum == product(c.step, total(d, d.len()) as real)
}

/// The inner product of two restored vectors of `n` dimensions, multiplied
/// out: from their offsets and steps, the sums of their codes and the sum of
/// the products of their codes.
#[verifier::opaque]
pub open spec fn multiplied_out(
    lx: real,
    sx: real,
    ly: real,
    sy: real,
    n: real,
    ta: real,
    tb: real,
    tab: real,
) -> real {
    product(product(n, lx), ly) + product(lx, product(sy, tb)) + product(ly, product(sx, ta))
        + product(product(sx, sy), tab)
}

/// One more dimension in a multiplied out inner product.
proof fn lemma_one_more(
    lx: real,
    sx: real,
    ly: real,
    sy: real,
    n: real,
    ta: real,
    tb: real,
    tab: real,
    a: real,
    b: real,
)
    ensures
        multiplied_out(lx, sx, ly, sy, n, ta, tb, tab) + product(
            lx + product(sx, a),
            ly + product(sy, b),
        ) == multiplied_out(
            lx,
            sx,
            ly,
            sy,
            n + 1real,
            ta + a,
            tb + b,
            tab + product(a, b),
        ),
{
    reveal(multiplied_out);
    let (u, v) = (product(sx, a), product(sy, b));
    lemma_sums(lx, u, ly, v);
    lemma_commute(u, ly);
    lemma_product_pairs(sx, a, sy, b);
    lemma_commute(n + 1real, lx);
    lemma_distribute(lx, n, 1real);
    lemma_constant_factors(lx);
    lemma_commute(lx, n);
    lemma_commute(product(n, lx) + lx, ly);
    lemma_distribute(ly, product(n, lx), lx);
    lemma_commute(ly, product(n, lx));
    lemma_commute(ly, lx);
    lemma_distribute(sy, tb, b);
    lemma_distribute(lx, product(sy, tb), v);
    lemma_distribute(sx, ta, a);
    lemma_distribute(ly, product(sx, ta), u);
    lemma_distribute(product(sx, sy), tab, product(a, b));
}

/// The product of two products, with the factors exchanged.
proof fn lemma_product_pairs(s: real, a: real, t: real, b: real)
    ensures
        product(product(s, a), product(t, b)) == product(product(s, t), product(a, b)),
{
    lemma_associate(s, a, product(t, b));
    lemma_associate(a, t, b);
    lemma_commute(a, t);
    lemma_associate(t, a, b);
    lemma_associate(s, t, product(a, b));
}

/// No dimension in a multiplied out inner product.
proof fn lemma_none(lx: real, sx: real, ly: real, sy: real)
    ensures
        multiplied_out(lx, sx, ly, sy, 0real, 0real, 0real, 0real) == 0real,
{
    reveal(multiplied_out);
    lemma_constant_factors(lx);
    lemma_constant_factors(ly);
    lemma_constant_factors(sx);
    lemma_constant_factors(sy);
    lemma_constant_factors(product(sx, sy));
}

/// The first `n` terms of the inner product of two restored vectors.
#[verifier::spinoff_prover]
proof fn lemma_restored_inner(x: CodeModel<real>, y: CodeModel<real>, n: nat)
    requires
        n <= x.dimension(),
        n <= y.dimension(),
    ensures
        dot_upto(x.restored(), y.restored(), n) == multiplied_out(
            x.lower,
            x.step,
            y.lower,
            y.step,
            n as real,
            total(digits(x.bits, x.codes), n) as real,
            total(digits(y.bits, y.codes), n) as real,
            sum_of_products(digits(x.bits, x.codes), digits(y.bits, y.codes), n) as real,
        ),
    decreases n,
{
    let (a, b) = (digits(x.bits, x.codes), digits(y.bits, y.codes));
    if n == 0 {
        lemma_none(x.lower, x.step, y.lower, y.step);
    } else {
        let m = (n - 1) as nat;
        lemma_restored_inner(x, y, m);
        let (p, q) = (a[n - 1], b[n - 1]);
        lemma_real_product(p, q);
        lemma_one_more(
            x.lower,
            x.step,
            y.lower,
            y.step,
            m as real,
            total(a, m) as real,
            total(b, m) as real,
            sum_of_products(a, b, m) as real,
            p as real,
            q as real,
        );
    }
}

/// The estimate from two codes of dimension `dim` is the inner product of the
/// rotated vectors that the codes stand for.
#[verifier::spinoff_prover]
pub proof fn law_estimate_is_inner(dim: nat, x: CodeModel<real>, y: CodeModel<real>)
    requires
        x.dimension() == dim,
        y.dimension() == dim,
        sum_is_kept(x),
        sum_is_kept(y),
    ensures
        estimated(dim, x, y) == inner_product(x.restored(), y.restored()),
{
    reveal(inner_product);
    reveal(multiplied_out);
    law_kernels_agree(x.bits, x.codes, y.bits, y.codes);
    lemma_restored_inner(x, y, dim);
}

/// The code of a coordinate within the range is in the range of codes, and
/// stands for a value at most half a step away.
#[verifier::spinoff_prover]
proof fn lemma_digit(v: real, lower: real, upper: real, step: real, top: nat)
    requires
        lower <= v <= upper,
        step > 0real,
        top <= 255,
        product(step, top as real) == upper - lower,
    ensures
        level(v, lower, step) <= top,
        -step <= 2real * (lower + product(step, level(v, lower, step) as nat as real) - v) <= step,
{
    reveal(level);
    lemma2_to64();
    let t = quotient(v - lower, step);
    lemma_quotient_product(v - lower, step);
    lemma_commute(step, top as real);
    lemma_cancel(step, t, top as real);
    assert(real::half_pow(1) == 1real / 2real) by {
        reveal(quotient);
    }
    let d = (t + 1real / 2real).floor();
    assert(level(v, lower, step) == d);
    let e = d as real - t;
    assert(-(1real / 2real) <= e <= 1real / 2real);
    lemma_commute(step, t);
    lemma_distribute(step, t, e);
    assert(t + e == d as real);
    lemma_scaled_factors(step, e);
    lemma_factor_order(step, 2real * e, 1real);
    lemma_factor_order(step, -1real, 2real * e);
    lemma_constant_factors(step);
    lemma_scaled_factors(step, 1real);
}

/// The coordinates are within `lower` and `upper`, and `step` divides that
/// range into as many steps as there are codes above 0.
pub open spec fn range_of(rx: Seq<real>, lower: real, upper: real, step: real, bits: Bits) -> bool {
    &&& forall|k: int| 0 <= k < rx.len() ==> lower <= #[trigger] rx[k] <= upper
    &&& step == quotient(upper - lower, bits.top() as real)
    &&& step > 0real
    &&& bits is Four ==> rx.len() % 2 == 0
}

/// Two vectors differ by at most half a step in each coordinate.
pub open spec fn within_half_step(a: Seq<real>, b: Seq<real>, step: real) -> bool {
    a.len() == b.len() && forall|k: int|
        0 <= k < a.len() ==> -step <= 2real * (#[trigger] a[k] - b[k]) <= step
}

/// A quantized vector is recovered from its code, in the order of its
/// coordinates, up to half a step in each; the code has the dimension of the
/// vector, uses no code above the largest, and holds the sum of its codes.
#[verifier::spinoff_prover]
pub proof fn law_quantized_recovered(
    rx: Seq<real>,
    lower: real,
    upper: real,
    step: real,
    norm2: real,
    bits: Bits,
)
    requires
        range_of(rx, lower, upper, step, bits),
    ensures
        forall|k: int| 0 <= k < rx.len() ==> level(#[trigger] rx[k], lower, step) <= bits.top(),
        quantized(rx, lower, step, norm2, bits).dimension() == rx.len(),
        sum_is_kept(quantized(rx, lower, step, norm2, bits)),
        within_half_step(quantized(rx, lower, step, norm2, bits).restored(), rx, step),
{
    let top = bits.top() as real;
    lemma_quotient_product(upper - lower, top);
    let d = digits_of(rx, lower, step, bits);
    assert forall|k: int| 0 <= k < rx.len() implies #[trigger] d[k] <= bits.top() && -step <= 2real
        * (lower + product(step, d[k] as nat as real) - rx[k]) <= step by {
        lemma_digit(rx[k], lower, upper, step, bits.top());
        assert(d[k] == digit(rx[k], lower, step, bits));
    }
    law_pack_then_unpack(d, bits);
    lemma_totals(d, d.len());
    let c = quantized(rx, lower, step, norm2, bits);
    let r = c.restored();
    assert forall|k: int| 0 <= k < r.len() implies -step <= 2real * (#[trigger] r[k] - rx[k])
        <= step by {
        assert(r[k] == lower + product(step, d[k] as nat as real));
    }
    assert forall|k: int| 0 <= k < rx.len() implies level(#[trigger] rx[k], lower, step)
        <= bits.top() by {
        lemma_digit(rx[k], lower, upper, step, bits.top());
    }
}

/// The absolute value.
pub open spec fn size(a: real) -> real {
    if a < 0real {
        -a
    } else {
        a
    }
}

/// How far the inner product of the first `n` coordinates can move where the
/// coordinates of `x` move by half of `sx`, and those of `y` by half of `sy`.
pub open spec fn inner_error(x: Seq<real>, y: Seq<real>, sx: real, sy: real, n: nat) -> real
    decreases n,
{
    if n == 0 {
        0real
    } else {
        inner_error(x, y, sx, sy, (n - 1) as nat) + (product(size(x[n - 1]), sy) + product(
            size(y[n - 1]),
            sx,
        )) / 2real + product(sx, sy) / 4real
    }
}

/// A factor times another that is at most half of a bound.
proof fn lemma_half_bound(a: real, f: real, s: real)
    requires
        -s <= 2real * f <= s,
    ensures
        size(2real * product(a, f)) <= product(size(a), s),
{
    let g = 2real * f;
    lemma_scaled_factors(a, f);
    lemma_factor_order(size(a), g, s);
    lemma_factor_order(size(a), -s, g);
    lemma_scaled_factors(size(a), s);
    if a < 0real {
        lemma_scaled_factors(a, g);
    }
}

/// How far a product moves where its factors move.
proof fn lemma_product_error(a: real, b: real, p: real, q: real, sx: real, sy: real)
    requires
        -sx <= 2real * (p - a) <= sx,
        -sy <= 2real * (q - b) <= sy,
    ensures
        size(product(p, q) - product(a, b)) <= (product(size(a), sy) + product(size(b), sx)) / 2real
            + product(sx, sy) / 4real,
{
    let (e, f) = (p - a, q - b);
    lemma_sums(a, e, b, f);
    lemma_commute(e, b);
    lemma_half_bound(a, f, sy);
    lemma_half_bound(b, e, sx);
    lemma_half_bound(e, f, sy);
    let se = size(e);
    lemma_factor_order(sy, 2real * se, sx);
    lemma_scaled_factors(se, sy);
    assert(p == a + e && q == b + f);
}

/// How far an inner product moves where the coordinates move by at most half a
/// step.
#[verifier::spinoff_prover]
proof fn lemma_inner_error(
    x: Seq<real>,
    y: Seq<real>,
    p: Seq<real>,
    q: Seq<real>,
    sx: real,
    sy: real,
    n: nat,
)
    requires
        within_half_step(p, x, sx),
        within_half_step(q, y, sy),
        n <= x.len(),
        n <= y.len(),
    ensures
        size(dot_upto(p, q, n) - dot_upto(x, y, n)) <= inner_error(x, y, sx, sy, n),
    decreases n,
{
    if n > 0 {
        lemma_inner_error(x, y, p, q, sx, sy, (n - 1) as nat);
        assert(-sx <= 2real * (p[n - 1] - x[n - 1]) <= sx);
        assert(-sy <= 2real * (q[n - 1] - y[n - 1]) <= sy);
        lemma_product_error(x[n - 1], y[n - 1], p[n - 1], q[n - 1], sx, sy);
    }
}

/// The estimate from the codes of two rotated vectors is the inner product of
/// the vectors themselves, up to what half a step in each rotated coordinate
/// can move it. The two codes may have different widths.
#[verifier::spinoff_prover]
pub proof fn law_estimate_error(
    m: RotationModel<real>,
    x: Seq<real>,
    y: Seq<real>,
    x_range: (real, real, real, Bits),
    y_range: (real, real, real, Bits),
    x_norm2: real,
    y_norm2: real,
)
    requires
        signed_rotation(m, m.dim),
        x.len() == y.len() <= m.dim,
        range_of(m.rotated(x), x_range.0, x_range.1, x_range.2, x_range.3),
        range_of(m.rotated(y), y_range.0, y_range.1, y_range.2, y_range.3),
    ensures
        size(
            estimated(
                m.dim,
                quantized(m.rotated(x), x_range.0, x_range.2, x_norm2, x_range.3),
                quantized(m.rotated(y), y_range.0, y_range.2, y_norm2, y_range.3),
            ) - inner_product(x, y),
        ) <= inner_error(m.rotated(x), m.rotated(y), x_range.2, y_range.2, m.dim),
{
    let (rx, ry) = (m.rotated(x), m.rotated(y));
    law_rotation_orthogonal(m, x, y);
    law_rotation_orthogonal(m, y, x);
    law_quantized_recovered(rx, x_range.0, x_range.1, x_range.2, x_norm2, x_range.3);
    law_quantized_recovered(ry, y_range.0, y_range.1, y_range.2, y_norm2, y_range.3);
    let cx = quantized(rx, x_range.0, x_range.2, x_norm2, x_range.3);
    let cy = quantized(ry, y_range.0, y_range.2, y_norm2, y_range.3);
    law_estimate_is_inner(m.dim, cx, cy);
    let (px, py) = (cx.restored(), cy.restored());
    lemma_inner_error(rx, ry, px, py, x_range.2, y_range.2, m.dim);
    assert(inner_product(px, py) == dot_upto(px, py, m.dim)) by {
        reveal(inner_product);
    }
    assert(inner_product(rx, ry) == dot_upto(rx, ry, m.dim)) by {
        reveal(inner_product);
    }
}

/// The inner product of differences.
#[verifier::spinoff_prover]
proof fn lemma_dot_differences(x: Seq<real>, y: Seq<real>, n: nat)
    requires
        n <= x.len(),
        n <= y.len(),
    ensures
        dot_upto(differences(x, y), differences(x, y), n) == dot_upto(x, x, n) + dot_upto(y, y, n)
            - 2real * dot_upto(x, y, n),
    decreases n,
{
    if n > 0 {
        lemma_dot_differences(x, y, (n - 1) as nat);
        let (a, b) = (x[n - 1], y[n - 1]);
        lemma_sums(a, b, a, b);
        lemma_commute(a, b);
    }
}

/// The distances from squared norms and an inner product: one minus the inner
/// product for the cosine distance, the negative inner product, and the
/// squared norm of the difference.
pub proof fn law_metric_values(x: Seq<real>, y: Seq<real>)
    requires
        x.len() == y.len(),
    ensures
        metric_value(
            Metric::Cosine,
            inner_product(x, x),
            inner_product(y, y),
            inner_product(x, y),
        ) == 1real - inner_product(x, y),
        metric_value(
            Metric::Dot,
            inner_product(x, x),
            inner_product(y, y),
            inner_product(x, y),
        ) == -inner_product(x, y),
        metric_value(
            Metric::L2,
            inner_product(x, x),
            inner_product(y, y),
            inner_product(x, y),
        ) == inner_product(differences(x, y), differences(x, y)),
{
    lemma_squared_distance(x, y);
    let (p, q, d) = (inner_product(x, x), inner_product(y, y), inner_product(x, y));
    lemma_constant_factors(p + q);
    lemma_constant_factors(d);
}

/// A distance is off by as much as the inner product it is computed from, and
/// by twice as much for the squared Euclidean distance.
pub proof fn law_metric_error(
    metric: Metric,
    x_norm2: real,
    y_norm2: real,
    estimate: real,
    dot: real,
    bound: real,
)
    requires
        size(estimate - dot) <= bound,
    ensures
        size(
            metric_value(metric, x_norm2, y_norm2, estimate) - metric_value(
                metric,
                x_norm2,
                y_norm2,
                dot,
            ),
        ) <= if metric is L2 {
            2real * bound
        } else {
            bound
        },
{
    lemma_constant_factors(x_norm2 + y_norm2);
    lemma_constant_factors(estimate);
    lemma_constant_factors(dot);
}

/// The squared distance of two vectors from inner products.
pub proof fn lemma_squared_distance(x: Seq<real>, y: Seq<real>)
    requires
        x.len() == y.len(),
    ensures
        inner_product(differences(x, y), differences(x, y)) == inner_product(x, x) + inner_product(
            y,
            y,
        ) - 2real * inner_product(x, y),
{
    reveal(inner_product);
    lemma_dot_differences(x, y, x.len());
}

/// Coordinates that differ by at most half a step, squared and added up.
proof fn lemma_half_steps_squared(a: Seq<real>, b: Seq<real>, step: real, n: nat)
    requires
        within_half_step(a, b, step),
        n <= a.len(),
    ensures
        4real * dot_upto(differences(a, b), differences(a, b), n) <= product(
            n as real,
            product(step, step),
        ),
    decreases n,
{
    let ss = product(step, step);
    if n == 0 {
        lemma_constant_factors(ss);
    } else {
        let m = (n - 1) as nat;
        lemma_half_steps_squared(a, b, step, m);
        let e = a[n - 1] - b[n - 1];
        assert(-step <= 2real * e <= step);
        lemma_half_bound(e, e, step);
        lemma_factor_order(step, 2real * size(e), step);
        lemma_scaled_factors(size(e), step);
        lemma_commute(m as real, ss);
        lemma_distribute(ss, m as real, 1real);
        lemma_constant_factors(ss);
        assert(n as real == m as real + 1real);
        lemma_commute(ss, n as real);
    }
}

/// Decoding the code of a vector gives the vector, zero-padded to the output
/// dimension, up to what quantization took: half a step in each coordinate,
/// added up as a squared distance.
pub proof fn law_decode_error(
    m: RotationModel<real>,
    x: Seq<real>,
    lower: real,
    upper: real,
    step: real,
    norm2: real,
    bits: Bits,
)
    requires
        signed_rotation(m, m.dim),
        x.len() <= m.dim,
        range_of(m.rotated(x), lower, upper, step, bits),
    ensures
        ({
            let c = quantized(m.rotated(x), lower, step, norm2, bits);
            let off = differences(m.unrotated(c.restored()), padded(x, m.dim));
            &&& m.unrotated(c.restored()).len() == m.dim
            &&& 4real * inner_product(off, off) <= product(m.dim as real, product(step, step))
        }),
{
    let rx = m.rotated(x);
    law_rotation_orthogonal(m, x, x);
    law_quantized_recovered(rx, lower, upper, step, norm2, bits);
    let r = quantized(rx, lower, step, norm2, bits).restored();
    let (u, p) = (m.unrotated(r), padded(x, m.dim));
    law_rotation_undone(m, x, r);
    law_unrotated_dimension(m, r);
    law_rotation_orthogonal(m, u, u);
    law_rotation_orthogonal(m, p, p);
    law_rotation_orthogonal(m, u, p);
    assert(padded(p, m.dim) =~= p);
    lemma_squared_distance(u, p);
    lemma_squared_distance(r, rx);
    lemma_half_steps_squared(r, rx, step, m.dim);
    assert(inner_product(differences(r, rx), differences(r, rx)) == dot_upto(
        differences(r, rx),
        differences(r, rx),
        m.dim,
    )) by {
        reveal(inner_product);
    }
}

} // verus!
