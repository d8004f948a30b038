//! The arithmetic that the algorithms of this crate are stated over.
//!
//! Each algorithm is specified once, for any arithmetic. Executed on
//! [`Binary32`](crate::Binary32) numbers it computes the specification in
//! single precision; what it computes without rounding is the same
//! specification over the real numbers.

#[allow(unused_imports)]
use crate::algebra::{product, quotient};
use vstd::arithmetic::power2::pow2;
use vstd::prelude::*;

verus! {

/// Addition, subtraction, multiplication, division and conversions.
pub trait Arithmetic: Sized {
    /// The sum.
    spec fn plus(self, other: Self) -> Self;

    /// The difference.
    spec fn minus(self, other: Self) -> Self;

    /// The product.
    spec fn times(self, other: Self) -> Self;

    /// The quotient.
    spec fn over(self, other: Self) -> Self;

    /// The number nearest to a natural number.
    spec fn of_nat(n: nat) -> Self;

    /// The integral part, brought into the range of a byte.
    spec fn saturated(self) -> u8;

    /// `2^-k`, for small `k`.
    spec fn half_pow(k: nat) -> Self;
}

/// Exact arithmetic.
impl Arithmetic for real {
    open spec fn plus(self, other: real) -> real {
        self + other
    }

    open spec fn minus(self, other: real) -> real {
        self - other
    }

    open spec fn times(self, other: real) -> real {
        product(self, other)
    }

    open spec fn over(self, other: real) -> real {
        quotient(self, other)
    }

    open spec fn of_nat(n: nat) -> real {
        n as real
    }

    open spec fn saturated(self) -> u8 {
        if self.floor() < 0 {
            0
        } else if self.floor() > 255 {
            255
        } else {
            self.floor() as u8
        }
    }

    open spec fn half_pow(k: nat) -> real {
        quotient(1real, pow2(k) as real)
    }
}

} // verus!
