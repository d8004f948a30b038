//! Norms of real vectors.

#[allow(unused_imports)]
use crate::algebra::{
    lemma_associate, lemma_cancel, lemma_commute, lemma_constant_factors, lemma_distribute,
    lemma_factor_order, lemma_multiple, lemma_positive, lemma_scaled_factors, lemma_square,
    lemma_sums, product,
};
#[allow(unused_imports)]
use crate::arith::Arithmetic;
#[allow(unused_imports)]
use crate::encoding::dot_upto;
#[allow(unused_imports)]
use crate::exact::{differences, inner_product, lemma_dot_joined, sums};
#[allow(unused_imports)]
use crate::hadamard::scaled;
#[allow(unused_imports)]
use crate::recovery::size;
use vstd::prelude::*;

verus! {

/// The squared norm.
pub open spec fn norm2(v: Seq<real>) -> real {
    inner_product(v, v)
}

/// The norm of `v` is at most `g` times the root of `q`.
pub open spec fn within(v: Seq<real>, g: real, q: real) -> bool {
    norm2(v) <= product(product(g, g), q)
}

/// The squared norm of a vector cut to `n` elements is not negative, and not
/// below the square of any of them.
proof fn lemma_norm_prefix(v: Seq<real>, n: nat)
    requires
        n <= v.len(),
    ensures
        dot_upto(v, v, n) >= 0real,
        forall|k: int| 0 <= k < n ==> product(#[trigger] v[k], v[k]) <= dot_upto(v, v, n),
    decreases n,
{
    if n > 0 {
        lemma_norm_prefix(v, (n - 1) as nat);
        lemma_square(v[n - 1]);
    }
}

/// A squared norm is not negative, and not below the square of any element.
pub proof fn lemma_norm(v: Seq<real>)
    ensures
        norm2(v) >= 0real,
        forall|k: int| 0 <= k < v.len() ==> product(#[trigger] v[k], v[k]) <= norm2(v),
{
    reveal(inner_product);
    lemma_norm_prefix(v, v.len());
}

/// Sums and differences of vectors, term by term.
proof fn lemma_norm_terms(u: Seq<real>, v: Seq<real>, n: nat)
    requires
        u.len() == v.len(),
        n <= u.len(),
    ensures
        dot_upto(sums(u, v), sums(u, v), n) == dot_upto(u, u, n) + dot_upto(v, v, n) + 2real
            * dot_upto(u, v, n),
        dot_upto(differences(u, v), differences(u, v), n) == dot_upto(u, u, n) + dot_upto(v, v, n)
            - 2real * dot_upto(u, v, n),
    decreases n,
{
    if n > 0 {
        lemma_norm_terms(u, v, (n - 1) as nat);
        let (a, b) = (u[n - 1], v[n - 1]);
        lemma_sums(a, b, a, b);
        lemma_commute(a, b);
    }
}

/// The squared norms of a sum and of a difference.
pub proof fn lemma_norm_of_sum(u: Seq<real>, v: Seq<real>)
    requires
        u.len() == v.len(),
    ensures
        norm2(sums(u, v)) == norm2(u) + norm2(v) + 2real * inner_product(u, v),
        norm2(differences(u, v)) == norm2(u) + norm2(v) - 2real * inner_product(u, v),
{
    reveal(inner_product);
    lemma_norm_terms(u, v, u.len());
}

/// The inner product of multiples, term by term.
proof fn lemma_dot_of_multiples(u: Seq<real>, v: Seq<real>, c: real, d: real, n: nat)
    requires
        u.len() == v.len(),
        n <= u.len(),
    ensures
        dot_upto(scaled(u, c), scaled(v, d), n) == product(product(c, d), dot_upto(u, v, n)),
    decreases n,
{
    if n > 0 {
        let m = (n - 1) as nat;
        lemma_dot_of_multiples(u, v, c, d, m);
        let (a, b) = (u[n - 1], v[n - 1]);
        lemma_distribute(product(c, d), dot_upto(u, v, m), product(a, b));
        lemma_associate(c, a, product(d, b));
        lemma_associate(a, d, b);
        lemma_commute(a, d);
        lemma_associate(d, a, b);
        lemma_associate(c, d, product(a, b));
    } else {
        lemma_constant_factors(product(c, d));
    }
}

/// The inner product of multiples.
pub proof fn lemma_inner_of_multiples(u: Seq<real>, v: Seq<real>, c: real, d: real)
    requires
        u.len() == v.len(),
    ensures
        inner_product(scaled(u, c), scaled(v, d)) == product(product(c, d), inner_product(u, v)),
{
    reveal(inner_product);
    lemma_dot_of_multiples(u, v, c, d, u.len());
}

/// Four factors, paired in two ways.
proof fn lemma_pairs(g: real, h: real, q: real)
    ensures
        product(product(h, h), product(product(g, g), q)) == product(
            product(g, h),
            product(product(g, h), q),
        ),
        product(product(g, g), product(product(h, h), q)) == product(
            product(g, h),
            product(product(g, h), q),
        ),
{
    let (gg, hh, gh) = (product(g, g), product(h, h), product(g, h));
    lemma_associate(hh, gg, q);
    lemma_associate(gg, hh, q);
    lemma_commute(gg, hh);
    lemma_associate(gh, gh, q);
    lemma_associate(g, g, hh);
    lemma_associate(g, h, h);
    lemma_associate(g, h, gh);
    lemma_commute(h, gh);
    lemma_associate(g, h, h);
}

/// An inner product is at most the product of the norms.
pub proof fn lemma_inner_bound(u: Seq<real>, v: Seq<real>, g: real, h: real, q: real)
    requires
        u.len() == v.len(),
        g > 0real,
        h > 0real,
        within(u, g, q),
        within(v, h, q),
    ensures
        inner_product(u, v) <= product(product(g, h), q),
        -inner_product(u, v) <= product(product(g, h), q),
{
    let (a, b, c) = (norm2(u), norm2(v), inner_product(u, v));
    let (gg, hh, gh) = (product(g, g), product(h, h), product(g, h));
    let (su, sv) = (scaled(u, h), scaled(v, g));
    lemma_inner_of_multiples(u, u, h, h);
    lemma_inner_of_multiples(v, v, g, g);
    lemma_inner_of_multiples(u, v, h, g);
    lemma_norm_of_sum(su, sv);
    lemma_norm(sums(su, sv));
    lemma_norm(differences(su, sv));
    lemma_commute(h, g);
    lemma_square(g);
    lemma_square(h);
    lemma_factor_order(hh, a, product(gg, q));
    lemma_factor_order(gg, b, product(hh, q));
    lemma_pairs(g, h, q);
    let p = product(gh, q);
    lemma_positive(g, h);
    lemma_commute(gh, c);
    lemma_commute(gh, p);
    lemma_scaled_factors(c, gh);
    lemma_cancel(gh, c, p);
    lemma_cancel(gh, -c, p);
}

/// The norm of a sum, and of a difference, is at most the sum of the norms.
pub proof fn lemma_triangle(u: Seq<real>, v: Seq<real>, g: real, h: real, q: real)
    requires
        u.len() == v.len(),
        g > 0real,
        h > 0real,
        within(u, g, q),
        within(v, h, q),
    ensures
        within(sums(u, v), g + h, q),
        within(differences(u, v), g + h, q),
{
    lemma_inner_bound(u, v, g, h, q);
    lemma_norm_of_sum(u, v);
    let (gg, hh, gh) = (product(g, g), product(h, h), product(g, h));
    lemma_sums(g, h, g, h);
    lemma_commute(h, g);
    lemma_commute(gg + gh + gh + hh, q);
    lemma_distribute(q, gg + gh + gh, hh);
    lemma_distribute(q, gg + gh, gh);
    lemma_distribute(q, gg, gh);
    lemma_commute(gg, q);
    lemma_commute(hh, q);
    lemma_commute(gh, q);
}

/// A greater bound is a bound.
pub proof fn lemma_weaken(v: Seq<real>, g: real, q: real, h: real, r: real)
    requires
        0real <= g <= h,
        0real <= q <= r,
        within(v, g, q),
    ensures
        within(v, h, r),
{
    lemma_factor_order(g, g, h);
    lemma_factor_order(h, g, h);
    lemma_square(g);
    lemma_square(h);
    lemma_factor_order(q, product(g, g), product(h, h));
    lemma_factor_order(product(h, h), q, r);
}

/// A bound relative to a vector that has a bound itself.
pub proof fn lemma_compose_bounds(v: Seq<real>, w2: real, g: real, h: real, q: real)
    requires
        within(v, g, w2),
        w2 <= product(product(h, h), q),
    ensures
        within(v, product(g, h), q),
{
    lemma_square(g);
    lemma_factor_order(product(g, g), w2, product(product(h, h), q));
    lemma_pairs(g, h, q);
    lemma_associate(product(g, h), product(g, h), q);
}

/// The bound of two joined vectors.
pub proof fn lemma_joined_bound(a: Seq<real>, b: Seq<real>, g: real, p: real, q: real)
    requires
        within(a, g, p),
        within(b, g, q),
    ensures
        norm2(a + b) == norm2(a) + norm2(b),
        within(a + b, g, p + q),
{
    reveal(inner_product);
    lemma_dot_joined(a, b, a, b, b.len());
    lemma_distribute(product(g, g), p, q);
}

/// A vector whose elements are at most a fraction of those of another.
proof fn lemma_fraction_terms(v: Seq<real>, w: Seq<real>, e: real, n: nat)
    requires
        n <= v.len(),
        n <= w.len(),
        e >= 0real,
        forall|k: int| 0 <= k < n ==> size(#[trigger] v[k]) <= product(e, size(w[k])),
    ensures
        dot_upto(v, v, n) <= product(product(e, e), dot_upto(w, w, n)),
    decreases n,
{
    let ee = product(e, e);
    if n == 0 {
        lemma_constant_factors(ee);
    } else {
        let m = (n - 1) as nat;
        lemma_fraction_terms(v, w, e, m);
        let (x, y) = (v[n - 1], w[n - 1]);
        let (a, b) = (size(x), size(y));
        let f = product(e, b);
        lemma_factor_order(a, a, f);
        lemma_factor_order(f, a, f);
        lemma_square_of_size(x);
        lemma_square_of_size(y);
        lemma_associate(e, b, f);
        lemma_commute(b, f);
        lemma_associate(e, b, b);
        lemma_associate(e, e, product(b, b));
        lemma_distribute(ee, dot_upto(w, w, m), product(y, y));
    }
}

/// The square of an absolute value.
pub proof fn lemma_square_of_size(a: real)
    ensures
        product(size(a), size(a)) == product(a, a),
{
    if a < 0real {
        lemma_scaled_factors(a, -a);
        lemma_scaled_factors(a, a);
    }
}

/// The norm of a vector whose elements are at most a fraction of those of
/// another.
pub proof fn lemma_fraction(v: Seq<real>, w: Seq<real>, e: real)
    requires
        v.len() == w.len(),
        e >= 0real,
        forall|k: int| 0 <= k < v.len() ==> size(#[trigger] v[k]) <= product(e, size(w[k])),
    ensures
        within(v, e, norm2(w)),
{
    reveal(inner_product);
    lemma_fraction_terms(v, w, e, v.len());
}

/// The squared norm of a vector of bounded elements, all of them zero from `n`
/// on, term by term.
proof fn lemma_bounded_terms(v: Seq<real>, n: nat, b: real, k: nat)
    requires
        k <= v.len(),
        b >= 0real,
        forall|j: int| 0 <= j < v.len() ==> size(#[trigger] v[j]) <= b,
        forall|j: int| n <= j < v.len() ==> #[trigger] v[j] == 0real,
    ensures
        dot_upto(v, v, k) <= product(
            if k < n {
                k as real
            } else {
                n as real
            },
            product(b, b),
        ),
    decreases k,
{
    let bb = product(b, b);
    if k == 0 {
        lemma_constant_factors(bb);
    } else {
        let j = (k - 1) as nat;
        lemma_bounded_terms(v, n, b, j);
        let a = size(v[j as int]);
        if j < n {
            lemma_square_of_size(v[j as int]);
            lemma_factor_order(a, a, b);
            lemma_factor_order(b, a, b);
            lemma_commute(j as real + 1real, bb);
            lemma_distribute(bb, j as real, 1real);
            lemma_commute(bb, j as real);
            lemma_constant_factors(bb);
            assert(k as real == j as real + 1real);
        } else {
            lemma_constant_factors(0real);
        }
    }
}

/// The squared norm of a vector whose elements are at most `b`, and zero from
/// the `n`th on.
pub proof fn lemma_bounded_norm(v: Seq<real>, n: nat, b: real)
    requires
        b >= 0real,
        n <= v.len(),
        forall|j: int| 0 <= j < v.len() ==> size(#[trigger] v[j]) <= b,
        forall|j: int| n <= j < v.len() ==> #[trigger] v[j] == 0real,
    ensures
        norm2(v) <= product(n as real, product(b, b)),
{
    reveal(inner_product);
    lemma_bounded_terms(v, n, b, v.len());
}

/// Of two numbers, the second not negative, the one with the greater square is
/// the greater.
pub proof fn lemma_root_order(a: real, b: real)
    requires
        b >= 0real,
        product(a, a) <= product(b, b),
    ensures
        a <= b,
{
    if a > b {
        lemma_positive(a, a - b);
        lemma_distribute(a, a, b);
        lemma_factor_order(b, b, a);
    }
}

/// A vector without norm is zero.
proof fn lemma_no_norm(u: Seq<real>)
    requires
        norm2(u) <= 0real,
    ensures
        forall|k: int| 0 <= k < u.len() ==> #[trigger] u[k] == 0real,
{
    lemma_constant_factors(0real);
    assert forall|k: int| 0 <= k < u.len() implies #[trigger] u[k] == 0real by {
        lemma_element_bound(u, 0real, k);
    }
}

/// The norm of a sum, and of a difference, is at most the sum of the norms.
pub proof fn lemma_sum_of_norms(u: Seq<real>, v: Seq<real>, a: real, b: real)
    requires
        u.len() == v.len(),
        a >= 0real,
        b >= 0real,
        norm2(u) <= product(a, a),
        norm2(v) <= product(b, b),
    ensures
        norm2(sums(u, v)) <= product(a + b, a + b),
        norm2(differences(u, v)) <= product(a + b, a + b),
{
    lemma_constant_factors(0real);
    lemma_norm_of_sum(u, v);
    if a == 0real {
        lemma_no_norm(u);
        assert(sums(u, v) =~= v);
    } else if b == 0real {
        lemma_no_norm(v);
        assert(sums(u, v) =~= u);
    } else {
        lemma_constant_factors(product(a, a));
        lemma_constant_factors(product(b, b));
        lemma_constant_factors(product(a + b, a + b));
        lemma_triangle(u, v, a, b, 1real);
    }
}

/// An inner product is at most the product of the norms.
pub proof fn lemma_inner_of_norms(u: Seq<real>, v: Seq<real>, a: real, b: real)
    requires
        u.len() == v.len(),
        a >= 0real,
        b >= 0real,
        norm2(u) <= product(a, a),
        norm2(v) <= product(b, b),
    ensures
        size(inner_product(u, v)) <= product(a, b),
{
    lemma_constant_factors(0real);
    lemma_constant_factors(a);
    lemma_constant_factors(b);
    lemma_norm_of_sum(u, v);
    if a == 0real {
        lemma_no_norm(u);
        assert(sums(u, v) =~= v);
        lemma_norm(u);
    } else if b == 0real {
        lemma_no_norm(v);
        assert(sums(u, v) =~= u);
        lemma_norm(v);
    } else {
        lemma_constant_factors(product(a, a));
        lemma_constant_factors(product(b, b));
        lemma_constant_factors(product(a, b));
        lemma_inner_bound(u, v, a, b, 1real);
    }
}

/// The inner product of sums.
proof fn lemma_inner_of_sums(u: Seq<real>, p: Seq<real>, v: Seq<real>, q: Seq<real>, n: nat)
    requires
        u.len() == p.len() == v.len() == q.len(),
        n <= u.len(),
    ensures
        dot_upto(sums(u, p), sums(v, q), n) == dot_upto(u, v, n) + dot_upto(u, q, n) + dot_upto(
            p,
            v,
            n,
        ) + dot_upto(p, q, n),
    decreases n,
{
    if n > 0 {
        lemma_inner_of_sums(u, p, v, q, (n - 1) as nat);
        let k = n - 1;
        lemma_sums(u[k], p[k], v[k], q[k]);
    }
}

/// How far an inner product moves where the vectors move.
pub proof fn lemma_moved_inner(
    u: Seq<real>,
    v: Seq<real>,
    p: Seq<real>,
    q: Seq<real>,
    n: (real, real),
    d: (real, real),
)
    requires
        u.len() == v.len() == p.len() == q.len(),
        n.0 >= 0real,
        n.1 >= 0real,
        d.0 >= 0real,
        d.1 >= 0real,
        norm2(u) <= product(n.0, n.0),
        norm2(v) <= product(n.1, n.1),
        norm2(differences(p, u)) <= product(d.0, d.0),
        norm2(differences(q, v)) <= product(d.1, d.1),
    ensures
        size(inner_product(p, q) - inner_product(u, v)) <= product(n.0, d.1) + product(n.1, d.0)
            + product(d.0, d.1),
{
    let (a, b) = (differences(p, u), differences(q, v));
    assert(p =~= sums(u, a));
    assert(q =~= sums(v, b));
    lemma_inner_of_norms(u, b, n.0, d.1);
    lemma_inner_of_norms(a, v, d.0, n.1);
    lemma_inner_of_norms(a, b, d.0, d.1);
    lemma_commute(d.0, n.1);
    reveal(inner_product);
    lemma_inner_of_sums(u, a, v, b, u.len());
}

/// A bound relative to a square is the square of a bound.
pub proof fn lemma_bound_as_square(v: Seq<real>, g: real, c: real)
    requires
        within(v, g, product(c, c)),
    ensures
        norm2(v) <= product(product(g, c), product(g, c)),
{
    lemma_pairs(g, c, 1real);
    lemma_constant_factors(product(c, c));
    lemma_constant_factors(product(g, c));
}

/// No element exceeds a bound on the norm.
pub proof fn lemma_element_bound(v: Seq<real>, b: real, k: int)
    requires
        b >= 0real,
        norm2(v) <= product(b, b),
        0 <= k < v.len(),
    ensures
        size(v[k]) <= b,
{
    lemma_norm(v);
    lemma_square_of_size(v[k]);
    let a = size(v[k]);
    assert(product(v[k], v[k]) <= norm2(v));
    if a > b {
        lemma_positive(a, a - b);
        lemma_distribute(a, a, b);
        lemma_factor_order(b, b, a);
    }
}

/// The squared norm of the sums and the differences of two vectors.
pub proof fn lemma_norm_of_butterfly(a: Seq<real>, b: Seq<real>)
    requires
        a.len() == b.len(),
    ensures
        norm2(sums(a, b) + differences(a, b)) == 2real * (norm2(a) + norm2(b)),
{
    reveal(inner_product);
    lemma_norm_of_sum(a, b);
    let (s, d) = (sums(a, b), differences(a, b));
    lemma_dot_joined(s, d, s, d, d.len());
}

/// A fraction `1 / 2^24` as a factor.
pub proof fn lemma_tiny(s: real)
    ensures
        product(1real / 16777216real, s) == s / 16777216real,
{
    lemma_multiple(1real / 16777216real, 1real, s);
    lemma_constant_factors(s);
}

} // verus!
