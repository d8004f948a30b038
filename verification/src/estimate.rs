//! Distance estimates from codes.

use crate::arith::Arithmetic;
use crate::binary32::Binary32;
use crate::code::{Bits, RqCodeRef};
#[allow(unused_imports)]
use crate::code::{clamped, CodeModel};
use crate::error::{Error, Result};
use crate::kernels::{dot_u4, dot_u8, dot_u8_u4, inner_fits_u32, SAFE_CODE_BYTES};
#[allow(unused_imports)]
use crate::kernels::{inner, lemma_inner_fits};
use vstd::prelude::*;

verus! {

/// Distance metric. All are computed from the same dot-product estimate.
#[derive(Clone, Copy, Debug, PartialEq, Eq, Structural)]
pub enum Metric {
    /// Cosine distance, `1 - cos(x, y)`. Assumes (and is exact for) unit
    /// vectors; the code does not normalize for you.
    Cosine,
    /// Negative inner product, `-⟨x, y⟩` (smaller = more similar).
    Dot,
    /// Squared Euclidean distance, `‖x - y‖²`.
    L2,
}

impl Metric {
    /// 1 for the cosine distance, 0 for the others.
    pub open spec fn cosine_weight(self) -> nat {
        if self is Cosine {
            1
        } else {
            0
        }
    }

    /// 1 for the squared Euclidean distance, 0 for the others.
    pub open spec fn l2_weight(self) -> nat {
        if self is L2 {
            1
        } else {
            0
        }
    }

    /// `(cos, l2)` indicator pair used by the unified distance formula.
    pub fn indicators(self) -> (r: (Binary32, Binary32))
        ensures
            r.0 == Binary32::of_nat(self.cosine_weight()),
            r.1 == Binary32::of_nat(self.l2_weight()),
    {
        match self {
            Metric::Cosine => (Binary32::from_u64(1), Binary32::from_u64(0)),
            Metric::Dot => (Binary32::from_u64(0), Binary32::from_u64(0)),
            Metric::L2 => (Binary32::from_u64(0), Binary32::from_u64(1)),
        }
    }
}

/// The estimate of the inner product of two vectors from their codes:
/// `Σ (lx + sx·cx)(ly + sy·cy)`, multiplied out.
pub open spec fn estimated<A: Arithmetic>(dim: nat, x: CodeModel<A>, y: CodeModel<A>) -> A {
    let ip = A::of_nat(inner(x.bits, x.codes, y.bits, y.codes));
    let a = A::of_nat(dim).times(x.lower).times(y.lower);
    let b = x.lower.times(y.code_sum);
    let c = y.lower.times(x.code_sum);
    let d = x.step.times(y.step).times(ip);
    a.plus(b).plus(c).plus(d)
}

/// The distance that a metric gives for an estimated inner product:
/// `1 - dot`, `-dot` or `‖x‖² + ‖y‖² - 2·dot`.
pub open spec fn metric_value<A: Arithmetic>(metric: Metric, x_norm2: A, y_norm2: A, dot: A) -> A {
    let (cos, l2) = (A::of_nat(metric.cosine_weight()), A::of_nat(metric.l2_weight()));
    l2.times(x_norm2.plus(y_norm2)).plus(cos).minus(A::of_nat(1).plus(l2).times(dot))
}

/// What estimating a distance gives: an error for the first of the two codes
/// whose dimension is not `dim`, the distance where both have it.
pub open spec fn distance_outcome<A: Arithmetic>(
    metric: Metric,
    dim: usize,
    x: CodeModel<A>,
    y: CodeModel<A>,
) -> core::result::Result<A, Error> {
    if x.dimension() != dim {
        Err(Error::DimensionMismatch { expected: dim, actual: clamped(x.dimension()) })
    } else if y.dimension() != dim {
        Err(Error::DimensionMismatch { expected: dim, actual: clamped(y.dimension()) })
    } else {
        Ok(metric_value(metric, x.norm2, y.norm2, estimated(dim as nat, x, y)))
    }
}

/// The integer dot product of two codes has at most 32 bits.
pub open spec fn inner_fits<A: Arithmetic>(x: CodeModel<A>, y: CodeModel<A>) -> bool {
    x.codes.len() <= SAFE_CODE_BYTES || y.codes.len() <= SAFE_CODE_BYTES || inner(
        x.bits,
        x.codes,
        y.bits,
        y.codes,
    ) <= u32::MAX
}

/// The inner products that a distance estimate takes have at most 32 bits.
pub open spec fn distance_fits<A: Arithmetic>(
    dim: nat,
    x: CodeModel<A>,
    y: CodeModel<A>,
) -> bool {
    dim <= SAFE_CODE_BYTES || (x.dimension() == dim && y.dimension() == dim ==> inner_fits(x, y))
}

/// Whether the integer dot product of two codes has at most 32 bits. This holds
/// of all codes of which one has at most [`SAFE_CODE_BYTES`] bytes.
pub fn estimable(x: RqCodeRef<'_>, y: RqCodeRef<'_>) -> (r: bool)
    ensures
        r == inner_fits(x@, y@),
{
    x.codes().len() <= SAFE_CODE_BYTES || y.codes().len() <= SAFE_CODE_BYTES || inner_fits_u32(
        x.bits(),
        x.codes(),
        y.bits(),
        y.codes(),
    )
}

/// Whether a distance estimate takes an inner product of at most 32 bits, if any.
/// This holds of all codes where `output_dim` is at most [`SAFE_CODE_BYTES`].
pub fn comparable(output_dim: usize, x: RqCodeRef<'_>, y: RqCodeRef<'_>) -> (r: bool)
    ensures
        r == distance_fits(output_dim as nat, x@, y@),
{
    output_dim <= SAFE_CODE_BYTES || !x.bits().holds(x.codes().len(), output_dim)
        || !y.bits().holds(y.codes().len(), output_dim) || estimable(x, y)
}

/// Shared dot-product estimate over borrowed views; dispatches to the kernel
/// matching the two codes' bit widths.
pub fn dot_estimate_views(output_dim: usize, x: RqCodeRef<'_>, y: RqCodeRef<'_>) -> (dot: Binary32)
    requires
        inner_fits(x@, y@),
    ensures
        dot == estimated(output_dim as nat, x@, y@),
{
    proof {
        if x@.codes.len() <= SAFE_CODE_BYTES || y@.codes.len() <= SAFE_CODE_BYTES {
            lemma_inner_fits(x@.bits, x@.codes, y@.bits, y@.codes);
        }
    }
    let ip: u32 = match (x.bits(), y.bits()) {
        (Bits::Eight, Bits::Eight) => dot_u8(x.codes(), y.codes()),
        (Bits::Four, Bits::Four) => dot_u4(x.codes(), y.codes()),
        (Bits::Eight, Bits::Four) => dot_u8_u4(x.codes(), y.codes()),
        (Bits::Four, Bits::Eight) => dot_u8_u4(y.codes(), x.codes()),
    };
    let d: Binary32 = Binary32::from_u64(output_dim as u64);
    let a: Binary32 = d.mul(x.lower()).mul(y.lower());
    let b: Binary32 = x.lower().mul(y.code_sum());
    let c: Binary32 = y.lower().mul(x.code_sum());
    let dd: Binary32 = x.step().mul(y.step()).mul(Binary32::from_u64(ip as u64));
    a.add(b).add(c).add(dd)
}

/// Shared distance implementation: the owned, byte-slice, and query-distancer
/// entry points all funnel through here.
pub fn distance_views(
    metric: Metric,
    output_dim: usize,
    x: RqCodeRef<'_>,
    y: RqCodeRef<'_>,
) -> (r: Result<Binary32>)
    requires
        distance_fits(output_dim as nat, x@, y@),
    ensures
        r == distance_outcome(metric, output_dim, x@, y@),
{
    if !x.bits().holds(x.codes().len(), output_dim) {
        return Err(Error::DimensionMismatch { expected: output_dim, actual: x.dimension() });
    }
    if !y.bits().holds(y.codes().len(), output_dim) {
        return Err(Error::DimensionMismatch { expected: output_dim, actual: y.dimension() });
    }
    let (cos, l2) = metric.indicators();
    let dot: Binary32 = dot_estimate_views(output_dim, x, y);
    let norms: Binary32 = l2.mul(x.norm2().add(y.norm2()));
    Ok(norms.add(cos).sub(Binary32::from_u64(1).add(l2).mul(dot)))
}

} // verus!
