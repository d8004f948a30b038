//! What the algorithms compute without rounding: properties of their
//! specifications over the real numbers.

#[allow(unused_imports)]
use crate::algebra::{
    lemma_associate, lemma_commute, lemma_constant_factors, lemma_distribute, lemma_scaled_factors,
    lemma_sums, product, quotient,
};
#[allow(unused_imports)]
use crate::arith::Arithmetic;
#[allow(unused_imports)]
use crate::encoding::dot_upto;
#[allow(unused_imports)]
use crate::hadamard::{
    blockwise, hadamard, lemma_blockwise_len, lemma_hadamard_len, normalized, scaled,
};
use crate::pairing::Swap;
#[allow(unused_imports)]
use crate::recovery::lemma_squared_distance;
#[allow(unused_imports)]
use crate::rotation::{padded, swap_pass, swap_step, unswap_pass, unswap_step, RotationModel};
use vstd::arithmetic::power2::{lemma2_to64, lemma_pow2_pos, lemma_pow2_unfold, pow2};
use vstd::prelude::*;

verus! {

/// The inner product of two vectors of equal length.
#[verifier::opaque]
pub open spec fn inner_product(x: Seq<real>, y: Seq<real>) -> real {
    dot_upto(x, y, x.len())
}

/// The sums of the elements of two vectors.
pub open spec fn sums(x: Seq<real>, y: Seq<real>) -> Seq<real> {
    Seq::new(x.len(), |i: int| x[i] + y[i])
}

/// The differences of the elements of two vectors.
pub open spec fn differences(x: Seq<real>, y: Seq<real>) -> Seq<real> {
    Seq::new(x.len(), |i: int| x[i] - y[i])
}

/// Sums of products depend on the elements they use alone.
pub proof fn lemma_dot_prefix(x: Seq<real>, y: Seq<real>, a: Seq<real>, b: Seq<real>, n: nat)
    requires
        forall|k: int| 0 <= k < n ==> x[k] == a[k],
        forall|k: int| 0 <= k < n ==> y[k] == b[k],
    ensures
        dot_upto(x, y, n) == dot_upto(a, b, n),
    decreases n,
{
    if n > 0 {
        lemma_dot_prefix(x, y, a, b, (n - 1) as nat);
    }
}

/// The inner product of joined vectors.
pub proof fn lemma_dot_joined(a: Seq<real>, b: Seq<real>, c: Seq<real>, d: Seq<real>, n: nat)
    requires
        a.len() == c.len(),
        b.len() == d.len(),
        n <= b.len(),
    ensures
        dot_upto(a + b, c + d, a.len() + n) == dot_upto(a, c, a.len()) + dot_upto(b, d, n),
    decreases n,
{
    if n == 0 {
        lemma_dot_prefix(a + b, c + d, a, c, a.len());
    } else {
        lemma_dot_joined(a, b, c, d, (n - 1) as nat);
        assert((a + b)[a.len() + n - 1] == b[n - 1]);
        assert((c + d)[a.len() + n - 1] == d[n - 1]);
    }
}

/// The inner products of sums and of differences add up to twice those of the
/// parts.
proof fn lemma_dot_butterfly(a: Seq<real>, b: Seq<real>, c: Seq<real>, d: Seq<real>, n: nat)
    requires
        n <= a.len(),
        n <= c.len(),
    ensures
        dot_upto(sums(a, b), sums(c, d), n) + dot_upto(differences(a, b), differences(c, d), n)
            == 2real * dot_upto(a, c, n) + 2real * dot_upto(b, d, n),
    decreases n,
{
    if n > 0 {
        lemma_dot_butterfly(a, b, c, d, (n - 1) as nat);
        let (p, q, r, s) = (a[n - 1], b[n - 1], c[n - 1], d[n - 1]);
        lemma_sums(p, q, r, s);
    }
}

/// The transform multiplies inner products by the length of the block.
pub proof fn lemma_hadamard_inner(x: Seq<real>, y: Seq<real>, levels: nat)
    requires
        x.len() == pow2(levels),
        y.len() == pow2(levels),
    ensures
        inner_product(hadamard(x), hadamard(y)) == product(
            pow2(levels) as real,
            inner_product(x, y),
        ),
    decreases levels,
{
    reveal(inner_product);
    lemma2_to64();
    if levels > 0 {
        let l = (levels - 1) as nat;
        lemma_pow2_unfold(levels);
        lemma_pow2_pos(l);
        let half = (x.len() / 2) as int;
        let (a, b) = (x.subrange(0, half), x.subrange(half, x.len() as int));
        let (c, d) = (y.subrange(0, half), y.subrange(half, y.len() as int));
        lemma_hadamard_inner(a, c, l);
        lemma_hadamard_inner(b, d, l);
        lemma_hadamard_len(a, l);
        lemma_hadamard_len(b, l);
        lemma_hadamard_len(c, l);
        lemma_hadamard_len(d, l);
        let (ha, hb, hc, hd) = (hadamard(a), hadamard(b), hadamard(c), hadamard(d));
        assert(hadamard(x) =~= sums(ha, hb) + differences(ha, hb));
        assert(hadamard(y) =~= sums(hc, hd) + differences(hc, hd));
        lemma_dot_joined(
            sums(ha, hb),
            differences(ha, hb),
            sums(hc, hd),
            differences(hc, hd),
            half as nat,
        );
        lemma_dot_butterfly(ha, hb, hc, hd, half as nat);
        assert(x =~= a + b);
        assert(y =~= c + d);
        lemma_dot_joined(a, b, c, d, half as nat);
        let (p, u, v) = (pow2(l) as real, inner_product(a, c), inner_product(b, d));
        lemma_distribute(p, u, v);
        lemma_scaled_factors(p, u + v);
        assert(pow2(levels) as real == 2real * p);
    } else {
        assert(hadamard(x) == x);
        lemma_constant_factors(inner_product(x, y));
    }
}

/// The transform of sums, of differences and of multiples.
pub proof fn lemma_hadamard_linear(x: Seq<real>, y: Seq<real>, c: real, levels: nat)
    requires
        x.len() == pow2(levels),
        y.len() == pow2(levels),
    ensures
        hadamard(sums(x, y)) == sums(hadamard(x), hadamard(y)),
        hadamard(differences(x, y)) == differences(hadamard(x), hadamard(y)),
        hadamard(scaled(x, c)) == scaled(hadamard(x), c),
    decreases levels,
{
    lemma2_to64();
    lemma_hadamard_len(x, levels);
    lemma_hadamard_len(y, levels);
    if levels > 0 {
        let l = (levels - 1) as nat;
        lemma_pow2_unfold(levels);
        lemma_pow2_pos(l);
        let n = x.len() as int;
        let half = n / 2;
        let (x1, x2) = (x.subrange(0, half), x.subrange(half, n));
        let (y1, y2) = (y.subrange(0, half), y.subrange(half, n));
        lemma_hadamard_linear(x1, y1, c, l);
        lemma_hadamard_linear(x2, y2, c, l);
        lemma_hadamard_len(x1, l);
        lemma_hadamard_len(x2, l);
        lemma_hadamard_len(y1, l);
        lemma_hadamard_len(y2, l);
        let (h1, h2) = (hadamard(x1), hadamard(x2));
        let p = sums(x, y);
        assert(p.subrange(0, half) =~= sums(x1, y1));
        assert(p.subrange(half, n) =~= sums(x2, y2));
        assert(hadamard(p) =~= sums(hadamard(x), hadamard(y)));
        let m = differences(x, y);
        assert(m.subrange(0, half) =~= differences(x1, y1));
        assert(m.subrange(half, n) =~= differences(x2, y2));
        assert(hadamard(m) =~= differences(hadamard(x), hadamard(y)));
        let s = scaled(x, c);
        assert(s.subrange(0, half) =~= scaled(x1, c));
        assert(s.subrange(half, n) =~= scaled(x2, c));
        assert forall|k: int| 0 <= k < n implies #[trigger] hadamard(s)[k] == scaled(
            hadamard(x),
            c,
        )[k] by {
            if k < half {
                let (a, b) = (h1[k], h2[k]);
                lemma_distribute(c, a, b);
            } else {
                let (a, b) = (h1[k - half], h2[k - half]);
                lemma_distribute(c, a, b);
            }
        }
        assert(hadamard(s) =~= scaled(hadamard(x), c));
    } else {
        assert(hadamard(sums(x, y)) =~= sums(hadamard(x), hadamard(y)));
    }
}

/// Transforming twice multiplies by the length of the block.
pub proof fn lemma_hadamard_twice(x: Seq<real>, levels: nat)
    requires
        x.len() == pow2(levels),
    ensures
        hadamard(hadamard(x)) == scaled(x, pow2(levels) as real),
    decreases levels,
{
    lemma2_to64();
    lemma_hadamard_len(x, levels);
    if levels > 0 {
        let l = (levels - 1) as nat;
        lemma_pow2_unfold(levels);
        lemma_pow2_pos(l);
        let n = x.len() as int;
        let half = n / 2;
        let (a, b) = (x.subrange(0, half), x.subrange(half, n));
        lemma_hadamard_twice(a, l);
        lemma_hadamard_twice(b, l);
        lemma_hadamard_len(a, l);
        lemma_hadamard_len(b, l);
        let (ha, hb) = (hadamard(a), hadamard(b));
        let h = hadamard(x);
        assert(h.subrange(0, half) =~= sums(ha, hb));
        assert(h.subrange(half, n) =~= differences(ha, hb));
        lemma_hadamard_linear(ha, hb, 0real, l);
        let p = pow2(l) as real;
        assert(pow2(levels) as real == 2real * p);
        assert forall|k: int| 0 <= k < n implies #[trigger] hadamard(h)[k] == scaled(
            x,
            2real * p,
        )[k] by {
            if k < half {
                let (u, v) = (a[k], b[k]);
                lemma_scaled_factors(p, u);
                assert(hadamard(h)[k] == (product(p, u) + product(p, v)) + (product(p, u) - product(
                    p,
                    v,
                )));
            } else {
                let (u, v) = (a[k - half], b[k - half]);
                lemma_scaled_factors(p, v);
                assert(hadamard(h)[k] == (product(p, u) + product(p, v)) - (product(p, u) - product(
                    p,
                    v,
                )));
            }
        }
        assert(hadamard(h) =~= scaled(x, pow2(levels) as real));
    } else {
        assert forall|k: int| 0 <= k < x.len() implies #[trigger] scaled(x, 1real)[k] == x[k] by {
            lemma_constant_factors(x[k]);
        }
        assert(hadamard(hadamard(x)) =~= scaled(x, 1real));
    }
}

/// The normalized transform of one block is its own inverse and keeps inner
/// products.
proof fn lemma_block(x: Seq<real>, y: Seq<real>, levels: nat, c: real)
    requires
        x.len() == pow2(levels),
        y.len() == pow2(levels),
        product(product(c, c), pow2(levels) as real) == 1real,
    ensures
        hadamard(scaled(x, c)).len() == x.len(),
        hadamard(scaled(hadamard(scaled(x, c)), c)) == x,
        inner_product(hadamard(scaled(x, c)), hadamard(scaled(y, c))) == inner_product(x, y),
{
    reveal(inner_product);
    let p = pow2(levels) as real;
    let (sx, sy) = (scaled(x, c), scaled(y, c));
    lemma_hadamard_len(sx, levels);
    law_transform_twice(x, c, levels);
    assert forall|k: int| 0 <= k < x.len() implies #[trigger] scaled(x, 1real)[k] == x[k] by {
        lemma_constant_factors(x[k]);
    }
    assert(scaled(x, 1real) =~= x);
    lemma_hadamard_inner(sx, sy, levels);
    lemma_dot_scaled(x, y, c, x.len());
    let d = inner_product(x, y);
    lemma_regrouped(c, p, d);
    lemma_constant_factors(d);
}

/// The factors of normalizing twice, brought together.
proof fn lemma_regrouped(c: real, p: real, v: real)
    ensures
        product(c, product(p, product(c, v))) == product(product(product(c, c), p), v),
        product(p, product(product(c, c), v)) == product(product(product(c, c), p), v),
{
    let cc = product(c, c);
    lemma_associate(cc, p, v);
    lemma_commute(cc, p);
    lemma_associate(p, cc, v);
    lemma_associate(c, c, v);
    lemma_associate(p, c, v);
    lemma_commute(p, c);
    lemma_associate(c, p, v);
    lemma_associate(c, c, product(p, v));
}

/// The inner product of multiples.
proof fn lemma_dot_scaled(x: Seq<real>, y: Seq<real>, c: real, n: nat)
    requires
        n <= x.len(),
        n <= y.len(),
    ensures
        dot_upto(scaled(x, c), scaled(y, c), n) == product(product(c, c), dot_upto(x, y, n)),
    decreases n,
{
    if n > 0 {
        lemma_dot_scaled(x, y, c, (n - 1) as nat);
        let (d, u, v) = (dot_upto(x, y, (n - 1) as nat), x[n - 1], y[n - 1]);
        lemma_distribute(product(c, c), d, product(u, v));
        lemma_associate(c, u, product(c, v));
        lemma_associate(u, c, v);
        lemma_commute(u, c);
        lemma_associate(c, u, v);
        lemma_associate(c, c, product(u, v));
    } else {
        lemma_constant_factors(product(c, c));
    }
}

/// The normalized transform of a block of 256 is its own inverse and keeps
/// inner products.
pub proof fn lemma_block_256(x: Seq<real>, y: Seq<real>)
    requires
        x.len() == 256,
        y.len() == 256,
    ensures
        normalized(x, 4).len() == 256,
        normalized(normalized(x, 4), 4) == x,
        inner_product(normalized(x, 4), normalized(y, 4)) == inner_product(x, y),
{
    lemma2_to64();
    reveal(normalized);
    let c = real::half_pow(4);
    assert(product(product(c, c), 256real) == 1real) by {
        reveal(product);
        reveal(quotient);
        assert(c == 1real / 16real);
        assert(c * c * 256real == 1real) by (nonlinear_arith)
            requires
                c == 1real / 16real,
        ;
    }
    lemma_block(x, y, 8, c);
}

/// The normalized transform of a block of 64 is its own inverse and keeps
/// inner products.
pub proof fn lemma_block_64(x: Seq<real>, y: Seq<real>)
    requires
        x.len() == 64,
        y.len() == 64,
    ensures
        normalized(x, 3).len() == 64,
        normalized(normalized(x, 3), 3) == x,
        inner_product(normalized(x, 3), normalized(y, 3)) == inner_product(x, y),
{
    lemma2_to64();
    reveal(normalized);
    let c = real::half_pow(3);
    assert(product(product(c, c), 64real) == 1real) by {
        reveal(product);
        reveal(quotient);
        assert(c == 1real / 8real);
        assert(c * c * 64real == 1real) by (nonlinear_arith)
            requires
                c == 1real / 8real,
        ;
    }
    lemma_block(x, y, 6, c);
}

/// The inner product of vectors cut in two.
pub proof fn lemma_dot_cut(x: Seq<real>, y: Seq<real>, size: int)
    requires
        x.len() == y.len(),
        0 <= size <= x.len(),
    ensures
        inner_product(x, y) == inner_product(x.subrange(0, size), y.subrange(0, size))
            + inner_product(x.subrange(size, x.len() as int), y.subrange(size, y.len() as int)),
{
    reveal(inner_product);
    let n = x.len() as int;
    let (x1, x2) = (x.subrange(0, size), x.subrange(size, n));
    let (y1, y2) = (y.subrange(0, size), y.subrange(size, n));
    lemma_dot_joined(x1, x2, y1, y2, x2.len());
    assert(x =~= x1 + x2);
    assert(y =~= y1 + y2);
}

/// The number of ones in `k & n`.
pub open spec fn common_ones(k: nat, n: nat) -> nat
    decreases k,
{
    if k == 0 {
        0
    } else {
        common_ones(k / 2, n / 2) + if k % 2 == 1 && n % 2 == 1 {
            1nat
        } else {
            0nat
        }
    }
}

/// The sum of the first `len` elements, each negated where the number of ones
/// that its index has in common with `k` is odd.
pub open spec fn signed_sum(x: Seq<real>, k: nat, len: nat) -> real
    decreases len,
{
    if len == 0 {
        0real
    } else {
        let n = (len - 1) as nat;
        signed_sum(x, k, n) + if common_ones(k, n) % 2 == 1 {
            -x[n as int]
        } else {
            x[n as int]
        }
    }
}

/// A binary digit times a number.
proof fn lemma_digit_times(d: nat, p: nat)
    requires
        d <= 1,
    ensures
        d * p == if d == 1 {
            p
        } else {
            0
        },
{
    assert(1 * p == p && 0 * p == 0);
}

/// Common ones of numbers with one more binary digit each.
proof fn lemma_common_ones(a: nat, b: nat, s: nat, t: nat, levels: nat)
    requires
        a < pow2(levels),
        b < pow2(levels),
        s <= 1,
        t <= 1,
    ensures
        common_ones(a + s * pow2(levels), b + t * pow2(levels)) == common_ones(a, b) + s * t,
    decreases levels,
{
    lemma2_to64();
    let p = pow2(levels);
    let (k, n) = (a + s * p, b + t * p);
    lemma_digit_times(s, p);
    lemma_digit_times(t, p);
    lemma_digit_times(s, t);
    if levels == 0 {
        assert(common_ones(0, 0) == 0 && common_ones(0, 1) == 0);
        reveal_with_fuel(common_ones, 2);
    } else {
        let l = (levels - 1) as nat;
        lemma_pow2_unfold(levels);
        let q = pow2(l);
        lemma_digit_times(s, q);
        lemma_digit_times(t, q);
        lemma_common_ones(a / 2, b / 2, s, t, l);
        assert(k / 2 == a / 2 + s * q && n / 2 == b / 2 + t * q);
        assert(k % 2 == a % 2 && n % 2 == b % 2);
        lemma_pow2_pos(l);
    }
}

/// The signed sum of a first half: the last binary digit of `k` does not count.
proof fn lemma_first_signed_sum(x: Seq<real>, a: Seq<real>, k: nat, s: nat, levels: nat, len: nat)
    requires
        k < pow2(levels),
        s <= 1,
        len <= pow2(levels),
        forall|n: int| 0 <= n < len ==> #[trigger] x[n] == a[n],
    ensures
        signed_sum(x, k + s * pow2(levels), len) == signed_sum(a, k, len),
    decreases len,
{
    if len > 0 {
        let n = (len - 1) as nat;
        lemma_first_signed_sum(x, a, k, s, levels, n);
        lemma_common_ones(k, n, s, 0, levels);
        assert(0 * pow2(levels) == 0 && s * 0 == 0);
    }
}

/// The signed sum of both halves: that of the second one counts negatively where
/// the last binary digit of `k` is one.
proof fn lemma_second_signed_sum(
    x: Seq<real>,
    b: Seq<real>,
    k: nat,
    s: nat,
    levels: nat,
    len: nat,
)
    requires
        k < pow2(levels),
        s <= 1,
        len <= pow2(levels),
        forall|n: int| 0 <= n < len ==> x[pow2(levels) + n] == #[trigger] b[n],
    ensures
        ({
            let (p, j) = (pow2(levels), k + s * pow2(levels));
            signed_sum(x, j, p + len) == signed_sum(x, j, p) + if s == 1 {
                -signed_sum(b, k, len)
            } else {
                signed_sum(b, k, len)
            }
        }),
    decreases len,
{
    if len > 0 {
        let n = (len - 1) as nat;
        lemma_second_signed_sum(x, b, k, s, levels, n);
        lemma_common_ones(k, n, s, 1, levels);
        assert(1 * pow2(levels) == pow2(levels) && s * 1 == s);
        assert(x[pow2(levels) as int + n] == b[n as int]);
    }
}

/// The transform by its closed form: element `k` is the sum of all elements,
/// each negated where the number of ones that its index has in common with `k`
/// is odd.
proof fn lemma_transform_sums(x: Seq<real>, levels: nat, k: nat)
    requires
        x.len() == pow2(levels),
        k < x.len(),
    ensures
        hadamard(x)[k as int] == signed_sum(x, k, x.len()),
    decreases levels,
{
    lemma2_to64();
    if levels == 0 {
        assert(hadamard(x) == x);
        reveal_with_fuel(signed_sum, 2);
    } else {
        let l = (levels - 1) as nat;
        lemma_pow2_unfold(levels);
        lemma_pow2_pos(l);
        let p = pow2(l);
        let (a, b) = (x.subrange(0, p as int), x.subrange(p as int, x.len() as int));
        lemma_hadamard_len(a, l);
        lemma_hadamard_len(b, l);
        let (s, j) = if k < p {
            (0nat, k)
        } else {
            (1nat, (k - p) as nat)
        };
        lemma_digit_times(s, p);
        lemma_transform_sums(a, l, j);
        lemma_transform_sums(b, l, j);
        lemma_first_signed_sum(x, a, j, s, l, p);
        lemma_second_signed_sum(x, b, j, s, l, p);
        assert(x.len() / 2 == p);
    }
}

/// The transform of a block with any factor, in closed form: element `k` is the
/// factor times the sum of all elements, each negated where the number of ones
/// in the bitwise and of its index and `k` is odd.
pub proof fn law_transform_closed(x: Seq<real>, c: real, levels: nat, k: nat)
    requires
        x.len() == pow2(levels),
        k < x.len(),
    ensures
        hadamard(scaled(x, c)).len() == x.len(),
        hadamard(scaled(x, c))[k as int] == product(c, signed_sum(x, k, x.len())),
{
    lemma_hadamard_len(x, levels);
    lemma_hadamard_linear(x, x, c, levels);
    lemma_transform_sums(x, levels, k);
}

/// The transform of a block with any factor, applied twice, leaves the square of
/// the factor times the size of the block of each number.
pub proof fn law_transform_twice(x: Seq<real>, c: real, levels: nat)
    requires
        x.len() == pow2(levels),
    ensures
        hadamard(scaled(hadamard(scaled(x, c)), c)) == scaled(
            x,
            product(product(c, c), pow2(levels) as real),
        ),
{
    let p = pow2(levels) as real;
    let sx = scaled(x, c);
    lemma_hadamard_len(sx, levels);
    lemma_hadamard_twice(sx, levels);
    lemma_hadamard_linear(hadamard(sx), hadamard(sx), c, levels);
    let back = hadamard(scaled(hadamard(sx), c));
    let q = product(product(c, c), p);
    assert forall|k: int| 0 <= k < x.len() implies #[trigger] back[k] == product(q, x[k]) by {
        lemma_regrouped(c, p, x[k]);
    }
    assert(back =~= scaled(x, q));
}

/// The transform of 64 numbers with the factor `1/16`, applied twice, leaves a
/// quarter of each number.
pub proof fn law_part_twice(x: Seq<real>)
    requires
        x.len() == 64,
    ensures
        ({
            let c = real::half_pow(4);
            hadamard(scaled(hadamard(scaled(x, c)), c)) == scaled(x, real::half_pow(2))
        }),
{
    lemma2_to64();
    let (c, q) = (real::half_pow(4), real::half_pow(2));
    law_transform_twice(x, c, 6);
    assert(product(product(c, c), 64real) == q) by {
        reveal(product);
        reveal(quotient);
        assert(c == 1real / 16real);
        assert(c * c * 64real == 1real / 4real) by (nonlinear_arith)
            requires
                c == 1real / 16real,
        ;
    }
}

/// The block transform is its own inverse, and keeps inner products.
pub proof fn law_blockwise_orthogonal(x: Seq<real>, y: Seq<real>)
    requires
        x.len() == y.len(),
    ensures
        blockwise(blockwise(x)) == x,
        inner_product(blockwise(x), blockwise(y)) == inner_product(x, y),
    decreases x.len(),
{
    let n = x.len() as int;
    lemma_blockwise_len(x);
    lemma_blockwise_len(y);
    if n >= 64 {
        let size: int = if n >= 256 {
            256
        } else {
            64
        };
        let (x1, x2) = (x.subrange(0, size), x.subrange(size, n));
        let (y1, y2) = (y.subrange(0, size), y.subrange(size, n));
        if n >= 256 {
            lemma_block_256(x1, y1);
            lemma_block_256(y1, x1);
        } else {
            lemma_block_64(x1, y1);
            lemma_block_64(y1, x1);
        }
        law_blockwise_orthogonal(x2, y2);
        lemma_blockwise_len(x2);
        lemma_blockwise_len(y2);
        let (bx, by_) = (blockwise(x), blockwise(y));
        assert(bx.subrange(size, n) =~= blockwise(x2));
        assert(by_.subrange(size, n) =~= blockwise(y2));
        assert(bx.subrange(0, size) + bx.subrange(size, n) =~= bx);
        assert(by_.subrange(0, size) + by_.subrange(size, n) =~= by_);
        lemma_dot_cut(bx, by_, size);
        lemma_dot_cut(x, y, size);
        if n >= 256 {
            assert(bx.subrange(0, size) =~= normalized(x1, 4));
            assert(by_.subrange(0, size) =~= normalized(y1, 4));
        } else {
            assert(bx.subrange(0, size) =~= normalized(x1, 3));
            assert(by_.subrange(0, size) =~= normalized(y1, 3));
        }
        assert(blockwise(bx) =~= x1 + x2);
        assert(x =~= x1 + x2);
    }
}

/// One or minus one.
pub open spec fn unit_sign(s: real) -> bool {
    s == 1real || s == -1real
}

/// A swap exchanges elements of a vector of length `len`, with unit signs.
pub open spec fn swap_fits(s: Swap, signs: Seq<real>, len: nat) -> bool {
    s.i < len && s.j < len && unit_sign(signs[s.i as int]) && unit_sign(signs[s.j as int])
}

/// A unit sign cancels itself.
pub proof fn lemma_unit_sign(s: real, a: real, b: real)
    requires
        unit_sign(s),
    ensures
        product(s, product(s, a)) == a,
        product(product(s, a), product(s, b)) == product(a, b),
{
    lemma_constant_factors(a);
    lemma_constant_factors(b);
    if s == -1real {
        lemma_constant_factors(-a);
        lemma_scaled_factors(a, -b);
        lemma_scaled_factors(a, b);
    }
}

/// A swap step and its reverse undo each other.
proof fn lemma_swap_step_undone(x: Seq<real>, s: Swap, signs: Seq<real>)
    requires
        swap_fits(s, signs, x.len()),
    ensures
        unswap_step(swap_step(x, s, signs), s, signs) == x,
        swap_step(unswap_step(x, s, signs), s, signs) == x,
{
    let (i, j) = (s.i as int, s.j as int);
    lemma_unit_sign(signs[i], x[i], x[j]);
    lemma_unit_sign(signs[i], x[j], x[i]);
    lemma_unit_sign(signs[j], x[i], x[j]);
    lemma_unit_sign(signs[j], x[j], x[i]);
    assert(unswap_step(swap_step(x, s, signs), s, signs) =~= x);
    assert(swap_step(unswap_step(x, s, signs), s, signs) =~= x);
}

/// All swaps of a round and their reverses undo each other.
pub proof fn lemma_swap_pass_undone(x: Seq<real>, swaps: Seq<Swap>, signs: Seq<real>)
    requires
        forall|k: int| 0 <= k < swaps.len() ==> swap_fits(#[trigger] swaps[k], signs, x.len()),
    ensures
        swap_pass(x, swaps, signs).len() == x.len(),
        unswap_pass(x, swaps, signs).len() == x.len(),
        unswap_pass(swap_pass(x, swaps, signs), swaps, signs) == x,
        swap_pass(unswap_pass(x, swaps, signs), swaps, signs) == x,
    decreases swaps.len(),
{
    if swaps.len() > 0 {
        let (rest, last) = (swaps.drop_last(), swaps.last());
        lemma_swap_pass_undone(x, rest, signs);
        lemma_swap_step_undone(swap_pass(x, rest, signs), last, signs);
        let u = unswap_step(x, last, signs);
        lemma_swap_step_undone(x, last, signs);
        lemma_swap_pass_undone(u, rest, signs);
    }
}

/// The sum of products after one element of each vector was replaced.
proof fn lemma_dot_update(x: Seq<real>, y: Seq<real>, i: int, a: real, b: real, n: nat)
    requires
        x.len() == y.len(),
        0 <= i < x.len(),
        n <= x.len(),
    ensures
        dot_upto(x.update(i, a), y.update(i, b), n) == if i < n {
            dot_upto(x, y, n) - product(x[i], y[i]) + product(a, b)
        } else {
            dot_upto(x, y, n)
        },
    decreases n,
{
    if n > 0 {
        lemma_dot_update(x, y, i, a, b, (n - 1) as nat);
    }
}

/// A swap step keeps inner products.
proof fn lemma_swap_step_inner(x: Seq<real>, y: Seq<real>, s: Swap, signs: Seq<real>)
    requires
        x.len() == y.len(),
        swap_fits(s, signs, x.len()),
    ensures
        inner_product(swap_step(x, s, signs), swap_step(y, s, signs)) == inner_product(x, y),
{
    reveal(inner_product);
    let (i, j) = (s.i as int, s.j as int);
    let (a, b) = (product(signs[i], x[j]), product(signs[i], y[j]));
    let (c, d) = (product(signs[j], x[i]), product(signs[j], y[i]));
    lemma_unit_sign(signs[i], x[j], y[j]);
    lemma_unit_sign(signs[j], x[i], y[i]);
    lemma_dot_update(x, y, i, a, b, x.len());
    lemma_dot_update(x.update(i, a), y.update(i, b), j, c, d, x.len());
}

/// All swaps of a round keep inner products.
pub proof fn lemma_swap_pass_inner(x: Seq<real>, y: Seq<real>, swaps: Seq<Swap>, signs: Seq<real>)
    requires
        x.len() == y.len(),
        forall|k: int| 0 <= k < swaps.len() ==> swap_fits(#[trigger] swaps[k], signs, x.len()),
    ensures
        inner_product(swap_pass(x, swaps, signs), swap_pass(y, swaps, signs)) == inner_product(
            x,
            y,
        ),
    decreases swaps.len(),
{
    if swaps.len() > 0 {
        let (rest, last) = (swaps.drop_last(), swaps.last());
        lemma_swap_pass_inner(x, y, rest, signs);
        lemma_swap_pass_undone(x, rest, signs);
        lemma_swap_pass_undone(y, rest, signs);
        lemma_swap_step_inner(
            swap_pass(x, rest, signs),
            swap_pass(y, rest, signs),
            last,
            signs,
        );
    }
}

/// A rotation of vectors of length `len` whose signs are all one or minus one.
pub open spec fn signed_rotation(m: RotationModel<real>, len: nat) -> bool {
    &&& m.applies_to(len)
    &&& forall|r: int, k: int|
        0 <= r < m.rounds && 0 <= k < m.signs[r].len() ==> unit_sign(#[trigger] m.signs[r][k])
}

/// The swaps of a round exchange elements of the vector, with unit signs.
pub proof fn lemma_round_fits(m: RotationModel<real>, len: nat, r: int)
    requires
        signed_rotation(m, len),
        0 <= r < m.rounds,
    ensures
        forall|k: int|
            0 <= k < m.swaps[r].len() ==> swap_fits(#[trigger] m.swaps[r][k], m.signs[r], len),
{
    assert forall|k: int| 0 <= k < m.swaps[r].len() implies swap_fits(
        #[trigger] m.swaps[r][k],
        m.signs[r],
        len,
    ) by {
        let s = m.swaps[r][k];
        assert(unit_sign(m.signs[r][s.i as int]));
        assert(unit_sign(m.signs[r][s.j as int]));
    }
}

/// Rounds are undone, and keep lengths.
pub proof fn lemma_rounds_undone(m: RotationModel<real>, x: Seq<real>, rounds: nat)
    requires
        signed_rotation(m, x.len()),
        rounds <= m.rounds,
    ensures
        m.forward(x, rounds).len() == x.len(),
        m.backward(x, rounds).len() == x.len(),
        m.backward(m.forward(x, rounds), rounds) == x,
        m.forward(m.backward(x, rounds), rounds) == x,
    decreases rounds,
{
    if rounds > 0 {
        let r = rounds - 1;
        let (swaps, signs) = (m.swaps[r], m.signs[r]);
        lemma_round_fits(m, x.len(), r);
        lemma_rounds_undone(m, x, r as nat);
        let f = m.forward(x, r as nat);
        let p = swap_pass(f, swaps, signs);
        lemma_swap_pass_undone(f, swaps, signs);
        lemma_blockwise_len(p);
        law_blockwise_orthogonal(p, p);
        let b = blockwise(x);
        lemma_blockwise_len(x);
        law_blockwise_orthogonal(x, x);
        let u = unswap_pass(b, swaps, signs);
        lemma_swap_pass_undone(b, swaps, signs);
        lemma_rounds_undone(m, u, r as nat);
    }
}

/// Rounds keep inner products.
pub proof fn lemma_rounds_inner(m: RotationModel<real>, x: Seq<real>, y: Seq<real>, rounds: nat)
    requires
        signed_rotation(m, x.len()),
        x.len() == y.len(),
        rounds <= m.rounds,
    ensures
        inner_product(m.forward(x, rounds), m.forward(y, rounds)) == inner_product(x, y),
    decreases rounds,
{
    if rounds > 0 {
        let r = rounds - 1;
        let (swaps, signs) = (m.swaps[r], m.signs[r]);
        lemma_round_fits(m, x.len(), r);
        lemma_rounds_inner(m, x, y, r as nat);
        lemma_rounds_undone(m, x, r as nat);
        lemma_rounds_undone(m, y, r as nat);
        let (f, g) = (m.forward(x, r as nat), m.forward(y, r as nat));
        lemma_swap_pass_undone(f, swaps, signs);
        lemma_swap_pass_undone(g, swaps, signs);
        lemma_swap_pass_inner(f, g, swaps, signs);
        law_blockwise_orthogonal(swap_pass(f, swaps, signs), swap_pass(g, swaps, signs));
    }
}

/// Rotating back undoes a rotation, and rotating undoes rotating back.
pub proof fn law_rotation_undone(m: RotationModel<real>, x: Seq<real>, y: Seq<real>)
    requires
        signed_rotation(m, m.dim),
        y.len() == m.dim,
    ensures
        m.unrotated(m.rotated(x)) == padded(x, m.dim),
        m.rotated(m.unrotated(y)) == y,
{
    lemma_rounds_undone(m, padded(x, m.dim), m.rounds);
    lemma_rounds_undone(m, y, m.rounds);
    assert(padded(m.unrotated(y), m.dim) =~= m.unrotated(y));
}

/// A vector that is rotated back keeps its length.
pub proof fn law_unrotated_dimension(m: RotationModel<real>, x: Seq<real>)
    requires
        signed_rotation(m, x.len()),
    ensures
        m.unrotated(x).len() == x.len(),
{
    lemma_rounds_undone(m, x, m.rounds);
}

/// A rotation keeps inner products, and with them norms, of vectors that fit
/// its dimension.
pub proof fn law_rotation_orthogonal(m: RotationModel<real>, x: Seq<real>, y: Seq<real>)
    requires
        signed_rotation(m, m.dim),
        x.len() == y.len() <= m.dim,
    ensures
        m.rotated(x).len() == m.dim,
        inner_product(m.rotated(x), m.rotated(y)) == inner_product(x, y),
{
    let (p, q) = (padded(x, m.dim), padded(y, m.dim));
    lemma_rounds_undone(m, p, m.rounds);
    lemma_rounds_inner(m, p, q, m.rounds);
    lemma_dot_of_padded(x, y, m.dim, m.dim);
    reveal(inner_product);
}

/// Padding adds nothing to an inner product of vectors of different lengths,
/// term by term.
proof fn lemma_dot_of_padded(x: Seq<real>, y: Seq<real>, dim: nat, n: nat)
    requires
        n <= dim,
    ensures
        dot_upto(padded(x, dim), padded(y, dim), n) == dot_upto(x, y, shorter(n, x, y)),
    decreases n,
{
    if n > 0 {
        let k = n - 1;
        lemma_dot_of_padded(x, y, dim, (n - 1) as nat);
        lemma_constant_factors(padded(x, dim)[k]);
        lemma_constant_factors(padded(y, dim)[k]);
    }
}

/// The least of `n` and the two lengths.
pub open spec fn shorter(n: nat, x: Seq<real>, y: Seq<real>) -> nat {
    if n <= x.len() && n <= y.len() {
        n
    } else if x.len() <= y.len() {
        x.len()
    } else {
        y.len()
    }
}

/// A rotation keeps the inner products and the squared distances of vectors of
/// any lengths, cut to its dimension, where entries that a vector does not have
/// count as zero.
pub proof fn law_rotation_keeps(m: RotationModel<real>, x: Seq<real>, y: Seq<real>)
    requires
        signed_rotation(m, m.dim),
    ensures
        inner_product(m.rotated(x), m.rotated(y)) == dot_upto(x, y, shorter(m.dim, x, y)),
        ({
            let off = differences(m.rotated(x), m.rotated(y));
            let d = differences(padded(x, m.dim), padded(y, m.dim));
            inner_product(off, off) == inner_product(d, d)
        }),
{
    let (p, q) = (padded(x, m.dim), padded(y, m.dim));
    law_rotation_orthogonal(m, p, p);
    law_rotation_orthogonal(m, q, q);
    law_rotation_orthogonal(m, p, q);
    assert(padded(p, m.dim) =~= p && padded(q, m.dim) =~= q);
    assert(m.rotated(p) == m.rotated(x) && m.rotated(q) == m.rotated(y));
    lemma_squared_distance(m.rotated(x), m.rotated(y));
    lemma_squared_distance(p, q);
    reveal(inner_product);
    lemma_dot_of_padded(x, y, m.dim, m.dim);
}

} // verus!
