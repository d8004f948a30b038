//! Scalar quantization of a rotated vector.

use crate::arith::Arithmetic;
use crate::binary32::{Binary32, HALF_BITS, INFINITY_BITS, NEG_INFINITY_BITS};
use crate::code::{Bits, RqCode};
#[allow(unused_imports)]
use crate::code::{zero_code, CodeModel};
#[allow(unused_imports)]
use crate::rotation::{FastRotation, RotationModel};
use vstd::prelude::*;
use vstd::slice::slice_subrange;

verus! {

/// Up to this many dimensions, the sum of all codes has at most 32 bits.
pub const SAFE_DIMENSIONS: usize = 16_843_009;

/// The least of the first `n` elements, infinity for none.
pub open spec fn least(x: Seq<Binary32>, n: nat) -> Binary32
    decreases n,
{
    if n == 0 {
        Binary32 { bits: INFINITY_BITS }
    } else {
        least(x, (n - 1) as nat).lesser(x[n - 1])
    }
}

/// The greatest of the first `n` elements, minus infinity for none.
pub open spec fn greatest(x: Seq<Binary32>, n: nat) -> Binary32
    decreases n,
{
    if n == 0 {
        Binary32 { bits: NEG_INFINITY_BITS }
    } else {
        greatest(x, (n - 1) as nat).greater(x[n - 1])
    }
}

/// The quantization offset of a rotated vector.
pub open spec fn offset_of(rx: Seq<Binary32>) -> Binary32 {
    least(rx, rx.len())
}

/// The quantization step of a rotated vector: its spread over the largest code.
#[verifier::opaque]
pub open spec fn step_of(rx: Seq<Binary32>, bits: Bits) -> Binary32 {
    greatest(rx, rx.len()).minus(offset_of(rx)).over(Binary32::of_nat(bits.top()))
}

/// The distance of one coordinate from the offset in steps, rounded.
#[verifier::opaque]
pub open spec fn level<A: Arithmetic>(v: A, lower: A, step: A) -> u8 {
    v.minus(lower).over(step).plus(A::half_pow(1)).saturated()
}

/// The code of one coordinate: its level, at most the largest code.
pub open spec fn digit<A: Arithmetic>(v: A, lower: A, step: A, bits: Bits) -> u8 {
    let c = level(v, lower, step);
    if c <= bits.top() {
        c
    } else {
        bits.top() as u8
    }
}

/// The codes of all coordinates.
pub open spec fn digits_of<A: Arithmetic>(rx: Seq<A>, lower: A, step: A, bits: Bits) -> Seq<u8> {
    Seq::new(rx.len(), |k: int| digit(rx[k], lower, step, bits))
}

/// The code bytes that hold the given codes: 4-bit codes `i` and `i + half`
/// share byte `i`.
pub open spec fn packed(d: Seq<u8>, bits: Bits) -> Seq<u8> {
    match bits {
        Bits::Eight => d,
        Bits::Four => Seq::new(
            (d.len() / 2) as nat,
            |k: int| d[k] | (d[k + d.len() / 2] << 4),
        ),
    }
}

/// The sum of the first `n` codes.
pub open spec fn code_total(d: Seq<u8>, n: nat) -> nat
    decreases n,
{
    if n == 0 {
        0
    } else {
        code_total(d, (n - 1) as nat) + d[n - 1] as nat
    }
}

/// The sum of the codes that are stored.
pub open spec fn stored_total(d: Seq<u8>, bits: Bits) -> nat {
    match bits {
        Bits::Eight => code_total(d, d.len()),
        Bits::Four => code_total(d, (d.len() / 2 * 2) as nat),
    }
}

/// Sum of the first `n` products, left to right.
pub open spec fn dot_upto<A: Arithmetic>(x: Seq<A>, y: Seq<A>, n: nat) -> A
    decreases n,
{
    if n == 0 {
        A::of_nat(0)
    } else {
        dot_upto(x, y, (n - 1) as nat).plus(x[n - 1].times(y[n - 1]))
    }
}

/// `x` cut to at most `dim` elements.
pub open spec fn cut<A>(x: Seq<A>, dim: nat) -> Seq<A> {
    if x.len() > dim {
        x.take(dim as int)
    } else {
        x
    }
}

/// A vector can be rotated, where there is something to rotate.
pub open spec fn encodable(m: RotationModel<Binary32>, x: Seq<Binary32>) -> bool {
    x.len() > 0 ==> m.applies_to(m.dim)
}

/// No code distinguishes the coordinates: the input is empty, or all zero, or
/// has no spread.
pub open spec fn degenerate(m: RotationModel<Binary32>, x: Seq<Binary32>, bits: Bits) -> bool {
    x.len() == 0 || step_of(m.rotated(cut(x, m.dim)), bits).at_most(Binary32 { bits: 0 })
}

/// The code of a rotated vector, quantized with the given offset and step.
pub open spec fn quantized<A: Arithmetic>(
    rx: Seq<A>,
    lower: A,
    step: A,
    norm2: A,
    bits: Bits,
) -> CodeModel<A> {
    let d = digits_of(rx, lower, step, bits);
    CodeModel {
        lower,
        step,
        code_sum: step.times(A::of_nat(stored_total(d, bits))),
        norm2,
        bits,
        codes: packed(d, bits),
    }
}

/// The code of a vector.
pub open spec fn encoded(
    m: RotationModel<Binary32>,
    x: Seq<Binary32>,
    bits: Bits,
) -> CodeModel<Binary32> {
    let used = cut(x, m.dim);
    let rx = m.rotated(used);
    if degenerate(m, x, bits) {
        zero_code(m.dim, bits)
    } else {
        quantized(
            rx,
            offset_of(rx),
            step_of(rx, bits),
            dot_upto(used, used, used.len()),
            bits,
        )
    }
}

/// The sum of the codes of a vector has at most 32 bits.
pub open spec fn total_fits(m: RotationModel<Binary32>, x: Seq<Binary32>, bits: Bits) -> bool {
    let rx = m.rotated(cut(x, m.dim));
    m.dim <= SAFE_DIMENSIONS || degenerate(m, x, bits) || stored_total(
        digits_of(rx, offset_of(rx), step_of(rx, bits), bits),
        bits,
    ) <= u32::MAX
}

/// Sums of codes grow with the number of codes.
pub proof fn lemma_code_total(d: Seq<u8>, a: nat, b: nat)
    requires
        a <= b,
    ensures
        code_total(d, a) <= code_total(d, b),
        code_total(d, b) <= 255 * b,
    decreases b,
{
    if a < b {
        lemma_code_total(d, a, (b - 1) as nat);
    } else if b > 0 {
        lemma_code_total(d, (b - 1) as nat, (b - 1) as nat);
    }
}

/// The code of one coordinate.
fn quantize(v: Binary32, lower: Binary32, step: Binary32, bits: Bits) -> (c: u8)
    ensures
        c == digit(v, lower, step, bits),
{
    proof {
        reveal(level);
    }
    let c: u8 = v.sub(lower).div(step).add(Binary32::from_bits(HALF_BITS)).to_u8();
    match bits {
        Bits::Eight => c,
        Bits::Four => if c <= 15 {
            c
        } else {
            15
        },
    }
}

/// Quantize the rotated vector into `out` at the given width, returning the
/// integer code sum. 4-bit packs the split-nibble layout in a single pass by
/// walking the two halves together.
#[verifier::rlimit(40)]
pub(crate) fn quantize_into(
    rx: &[Binary32],
    lower: Binary32,
    step: Binary32,
    bits: Bits,
    out: &mut Vec<u8>,
) -> (sum: u32)
    requires
        rx@.len() <= SAFE_DIMENSIONS || stored_total(digits_of(rx@, lower, step, bits), bits)
            <= u32::MAX,
    ensures
        final(out)@ == old(out)@ + packed(digits_of(rx@, lower, step, bits), bits),
        sum == stored_total(digits_of(rx@, lower, step, bits), bits),
{
    let ghost d = digits_of(rx@, lower, step, bits);
    let ghost before = out@;
    let mut sum: u32 = 0;
    proof {
        let n = d.len();
        lemma_code_total(d, n, n);
        lemma_code_total(d, (n / 2 * 2) as nat, (n / 2 * 2) as nat);
    }
    match bits {
        Bits::Eight => {
            let n: usize = rx.len();
            let mut k: usize = 0;
            while k < n
                invariant
                    k <= n,
                    n == rx@.len(),
                    d == digits_of(rx@, lower, step, bits),
                    code_total(d, n as nat) <= u32::MAX,
                    sum == code_total(d, k as nat),
                    out@ =~= before + d.take(k as int),
                decreases n - k,
            {
                let c: u8 = quantize(rx[k], lower, step, bits);
                proof {
                    lemma_code_total(d, (k + 1) as nat, n as nat);
                }
                sum = sum + c as u32;
                out.push(c);
                k += 1;
            }
            assert(d.take(k as int) =~= d);
        },
        Bits::Four => {
            let half: usize = rx.len() / 2;
            let mut k: usize = 0;
            while k < half
                invariant
                    k <= half,
                    half == rx@.len() / 2,
                    d == digits_of(rx@, lower, step, bits),
                    code_total(d, (half * 2) as nat) <= u32::MAX,
                    sum == code_total(d, k as nat) + code_total(d, (half + k) as nat) - code_total(
                        d,
                        half as nat,
                    ),
                    out@ =~= before + packed(d, Bits::Four).take(k as int),
                decreases half - k,
            {
                let cl: u8 = quantize(rx[k], lower, step, bits);
                let ch: u8 = quantize(rx[half + k], lower, step, bits);
                proof {
                    lemma_code_total(d, (k + 1) as nat, half as nat);
                    lemma_code_total(d, (half + k + 1) as nat, (half * 2) as nat);
                }
                sum = sum + (cl as u32 + ch as u32);
                out.push(cl | (ch << 4));
                k += 1;
            }
            assert(packed(d, Bits::Four).take(k as int) =~= packed(d, Bits::Four));
        },
    }
    sum
}

/// Plain inner product over the common length of two slices.
pub(crate) fn dot(x: &[Binary32], y: &[Binary32]) -> (sum: Binary32)
    ensures
        sum == dot_upto(
            x@,
            y@,
            if x@.len() < y@.len() {
                x@.len()
            } else {
                y@.len()
            },
        ),
{
    let n: usize = if x.len() < y.len() {
        x.len()
    } else {
        y.len()
    };
    let mut sum: Binary32 = Binary32::from_u64(0);
    let mut k: usize = 0;
    while k < n
        invariant
            k <= n,
            n <= x@.len(),
            n <= y@.len(),
            sum == dot_upto(x@, y@, k as nat),
        decreases n - k,
    {
        sum = sum.add(x[k].mul(y[k]));
        k += 1;
    }
    sum
}

/// A vector ready to be quantized.
pub(crate) struct Prepared<'a> {
    /// The input, cut to the output dimension.
    pub input: &'a [Binary32],
    /// The rotated input.
    pub rotated: Vec<Binary32>,
    /// Quantization offset.
    pub lower: Binary32,
    /// Quantization step.
    pub step: Binary32,
}

/// Rotate and compute the quantization range for the given width. `None`
/// means degenerate input (empty, all-zero or without spread), that is, the
/// zero code.
pub(crate) fn prepare<'a>(rotation: &FastRotation, x: &'a [Binary32], bits: Bits) -> (r: Option<
    Prepared<'a>,
>)
    requires
        encodable(rotation@, x@),
    ensures
        r is None <==> degenerate(rotation@, x@, bits),
        r matches Some(p) ==> {
            &&& p.input@ == cut(x@, rotation@.dim)
            &&& p.rotated@ == rotation@.rotated(p.input@)
            &&& p.rotated@.len() == rotation@.dim
            &&& p.lower == offset_of(p.rotated@)
            &&& p.step == step_of(p.rotated@, bits)
        },
{
    if x.len() == 0 {
        return None;
    }
    let out_dim: usize = rotation.output_dim();
    let input: &'a [Binary32] = if x.len() > out_dim {
        slice_subrange(x, 0, out_dim)
    } else {
        x
    };
    let rotated: Vec<Binary32> = rotation.rotate(input);
    let mut lower: Binary32 = Binary32::from_bits(INFINITY_BITS);
    let mut upper: Binary32 = Binary32::from_bits(NEG_INFINITY_BITS);
    let mut k: usize = 0;
    while k < rotated.len()
        invariant
            k <= rotated@.len(),
            lower == least(rotated@, k as nat),
            upper == greatest(rotated@, k as nat),
        decreases rotated@.len() - k,
    {
        lower = lower.min(rotated[k]);
        upper = upper.max(rotated[k]);
        k += 1;
    }
    let step: Binary32 = upper.sub(lower).div(bits.max_code());
    proof {
        reveal(step_of);
    }
    if step.le(Binary32::from_bits(0)) {
        return None;
    }
    Some(Prepared { input, rotated, lower, step })
}

/// The code of a vector at an explicit bit width.
pub(crate) fn encode_with_bits(
    rotation: &FastRotation,
    x: &[Binary32],
    bits: Bits,
) -> (code: RqCode)
    requires
        encodable(rotation@, x@),
        total_fits(rotation@, x@, bits),
    ensures
        code@ == encoded(rotation@, x@, bits),
{
    let out_dim: usize = rotation.output_dim();
    match prepare(rotation, x, bits) {
        None => RqCode::zero(out_dim, bits),
        Some(p) => {
            let mut codes: Vec<u8> = Vec::with_capacity(bits.code_bytes(out_dim));
            let sum: u32 = quantize_into(p.rotated.as_slice(), p.lower, p.step, bits, &mut codes);
            proof {
                let d = digits_of(p.rotated@, p.lower, p.step, bits);
                assert(codes@ =~= packed(d, bits));
            }
            RqCode::from_parts(
                p.lower,
                p.step,
                p.step.mul(Binary32::from_u64(sum as u64)),
                dot(p.input, p.input),
                bits,
                codes,
            )
        },
    }
}

/// Whether the sum of the codes that quantizing the rotated vector would store
/// has at most 32 bits.
fn stored_total_fits(rx: &[Binary32], lower: Binary32, step: Binary32, bits: Bits) -> (r: bool)
    ensures
        r == (stored_total(digits_of(rx@, lower, step, bits), bits) <= u32::MAX),
{
    let ghost d = digits_of(rx@, lower, step, bits);
    let n: usize = match bits {
        Bits::Eight => rx.len(),
        Bits::Four => rx.len() / 2 * 2,
    };
    let mut sum: u64 = 0;
    let mut k: usize = 0;
    while k < n
        invariant
            k <= n,
            n <= rx@.len(),
            d == digits_of(rx@, lower, step, bits),
            stored_total(d, bits) == code_total(d, n as nat),
            sum == code_total(d, k as nat),
            sum <= u32::MAX,
        decreases n - k,
    {
        let c: u8 = quantize(rx[k], lower, step, bits);
        sum = sum + c as u64;
        k += 1;
        if sum > u32::MAX as u64 {
            proof {
                lemma_code_total(d, k as nat, n as nat);
            }
            return false;
        }
    }
    true
}

/// Whether a vector can be encoded: the sum of its codes has at most 32 bits.
/// This holds of every vector of at most [`SAFE_DIMENSIONS`] rotated dimensions.
pub(crate) fn code_sum_fits(rotation: &FastRotation, x: &[Binary32], bits: Bits) -> (r: bool)
    requires
        encodable(rotation@, x@),
    ensures
        r == total_fits(rotation@, x@, bits),
{
    if rotation.output_dim() <= SAFE_DIMENSIONS {
        return true;
    }
    match prepare(rotation, x, bits) {
        None => true,
        Some(p) => stored_total_fits(p.rotated.as_slice(), p.lower, p.step, bits),
    }
}

} // verus!
