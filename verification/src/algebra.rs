//! Products and quotients of real numbers.

use vstd::prelude::*;

verus! {

/// The product.
#[verifier::opaque]
pub open spec fn product(a: real, b: real) -> real {
    a * b
}

/// The quotient.
#[verifier::opaque]
pub open spec fn quotient(a: real, b: real) -> real {
    a / b
}

/// The order of factors does not matter.
#[verifier::spinoff_prover]
pub proof fn lemma_commute(a: real, b: real)
    ensures
        product(a, b) == product(b, a),
{
    reveal(product);
    assert(a * b == b * a) by (nonlinear_arith);
}

/// The grouping of factors does not matter.
#[verifier::spinoff_prover]
pub proof fn lemma_associate(a: real, b: real, c: real)
    ensures
        product(product(a, b), c) == product(a, product(b, c)),
{
    reveal(product);
    assert((a * b) * c == a * (b * c)) by (nonlinear_arith);
}

/// A factor times a sum and a difference.
#[verifier::spinoff_prover]
pub proof fn lemma_distribute(a: real, b: real, c: real)
    ensures
        product(a, b + c) == product(a, b) + product(a, c),
        product(a, b - c) == product(a, b) - product(a, c),
{
    reveal(product);
    assert(a * (b + c) == a * b + a * c) by (nonlinear_arith);
    assert(a * (b - c) == a * b - a * c) by (nonlinear_arith);
}

/// Small constant factors.
#[verifier::spinoff_prover]
pub proof fn lemma_constant_factors(a: real)
    ensures
        product(0real, a) == 0real,
        product(1real, a) == a,
        product(2real, a) == 2real * a,
        product(-1real, a) == -a,
        product(a, 0real) == 0real,
        product(a, 1real) == a,
{
    reveal(product);
}

/// A doubled or negated factor.
#[verifier::spinoff_prover]
pub proof fn lemma_scaled_factors(a: real, b: real)
    ensures
        product(2real * a, b) == 2real * product(a, b),
        product(-a, b) == -product(a, b),
        product(a, -b) == -product(a, b),
        product(a, 2real * b) == 2real * product(a, b),
{
    reveal(product);
    assert((2real * a) * b == 2real * (a * b)) by (nonlinear_arith);
    assert((-a) * b == -(a * b)) by (nonlinear_arith);
    assert(a * (-b) == -(a * b)) by (nonlinear_arith);
    assert(a * (2real * b) == 2real * (a * b)) by (nonlinear_arith);
}

/// A multiple of a factor.
#[verifier::spinoff_prover]
pub proof fn lemma_multiple(c: real, a: real, b: real)
    ensures
        product(c * a, b) == c * product(a, b),
{
    reveal(product);
    assert((c * a) * b == c * (a * b)) by (nonlinear_arith);
}

/// A nonnegative factor keeps the order.
#[verifier::spinoff_prover]
pub proof fn lemma_factor_order(a: real, b: real, c: real)
    requires
        a >= 0real,
        b <= c,
    ensures
        product(a, b) <= product(a, c),
        product(b, a) <= product(c, a),
{
    reveal(product);
    assert(a * b <= a * c) by (nonlinear_arith)
        requires
            a >= 0real,
            b <= c,
    ;
    assert(b * a <= c * a) by (nonlinear_arith)
        requires
            a >= 0real,
            b <= c,
    ;
}

/// A square is not negative.
#[verifier::spinoff_prover]
pub proof fn lemma_square(a: real)
    ensures
        product(a, a) >= 0real,
{
    reveal(product);
    assert(a * a >= 0real) by (nonlinear_arith);
}

/// The product of positive numbers is positive, and of nonnegative ones is not
/// negative.
#[verifier::spinoff_prover]
pub proof fn lemma_positive(a: real, b: real)
    ensures
        a > 0real && b > 0real ==> product(a, b) > 0real,
        a >= 0real && b >= 0real ==> product(a, b) >= 0real,
{
    reveal(product);
    assert(a > 0real && b > 0real ==> a * b > 0real) by (nonlinear_arith);
    assert(a >= 0real && b >= 0real ==> a * b >= 0real) by (nonlinear_arith);
}

/// A positive factor can be cancelled.
#[verifier::spinoff_prover]
pub proof fn lemma_cancel(a: real, b: real, c: real)
    requires
        a > 0real,
        product(b, a) <= product(c, a),
    ensures
        b <= c,
{
    reveal(product);
    assert(b <= c) by (nonlinear_arith)
        requires
            a > 0real,
            b * a <= c * a,
    ;
}

/// A quotient times its divisor.
#[verifier::spinoff_prover]
pub proof fn lemma_quotient_product(a: real, b: real)
    requires
        b > 0real,
    ensures
        product(quotient(a, b), b) == a,
        a >= 0real ==> quotient(a, b) >= 0real,
{
    reveal(product);
    reveal(quotient);
    assert(a / b * b == a) by (nonlinear_arith)
        requires
            b > 0real,
    ;
    assert(a >= 0real ==> a / b >= 0real) by (nonlinear_arith)
        requires
            b > 0real,
    ;
}

/// A number divided by itself, and its negative.
#[verifier::spinoff_prover]
pub proof fn lemma_quotient_unit(a: real)
    requires
        a > 0real,
    ensures
        quotient(a, a) == 1real,
        quotient(-a, a) == -1real,
{
    reveal(quotient);
    assert(a / a == 1real) by (nonlinear_arith)
        requires
            a > 0real,
    ;
    assert((-a) / a == -1real) by (nonlinear_arith)
        requires
            a > 0real,
    ;
}

/// The product of two sums, and of two differences.
pub proof fn lemma_sums(a: real, b: real, c: real, d: real)
    ensures
        product(a + b, c + d) == product(a, c) + product(a, d) + product(b, c) + product(b, d),
        product(a - b, c - d) == product(a, c) - product(a, d) - product(b, c) + product(b, d),
{
    lemma_distribute(a + b, c, d);
    lemma_distribute(a - b, c, d);
    lemma_commute(a + b, c);
    lemma_commute(a + b, d);
    lemma_commute(a - b, c);
    lemma_commute(a - b, d);
    lemma_distribute(c, a, b);
    lemma_distribute(d, a, b);
    lemma_commute(a, c);
    lemma_commute(b, c);
    lemma_commute(a, d);
    lemma_commute(b, d);
}

/// A product of natural numbers as a real number.
pub proof fn lemma_real_product(a: nat, b: nat)
    ensures
        (a * b) as real == product(a as real, b as real),
    decreases b,
{
    if b > 0 {
        let c = (b - 1) as nat;
        lemma_real_product(a, c);
        assert(a * b == a * c + a) by (nonlinear_arith)
            requires
                b == c + 1,
        ;
        lemma_distribute(a as real, c as real, 1real);
        lemma_constant_factors(a as real);
        assert(b as real == c as real + 1real);
    } else {
        assert(a * 0 == 0);
        lemma_constant_factors(a as real);
    }
}

} // verus!
