//! The fast Walsh-Hadamard transform, in blocks.
//!
//! The transform of a block is normalized so that, without rounding, it is its
//! own inverse.

use crate::arith::Arithmetic;
use crate::binary32::Binary32;
use vstd::arithmetic::power2::{lemma2_to64, lemma_pow2_pos, lemma_pow2_unfold, pow2};
use vstd::prelude::*;

verus! {

/// Bits of `1/8`, which normalizes a block of 64.
pub const EIGHTH_BITS: u32 = 0x3e00_0000;

/// Bits of `1/16`, which normalizes a block of 256.
pub const SIXTEENTH_BITS: u32 = 0x3d80_0000;

/// The sums, then the differences, of two halves.
pub open spec fn butterfly<A: Arithmetic>(lo: Seq<A>, hi: Seq<A>) -> Seq<A> {
    Seq::new(lo.len(), |i: int| lo[i].plus(hi[i])) + Seq::new(
        lo.len(),
        |i: int| lo[i].minus(hi[i]),
    )
}

/// The transform of a block whose length is a power of two: both halves are
/// transformed, then combined.
pub open spec fn hadamard<A: Arithmetic>(x: Seq<A>) -> Seq<A>
    decreases x.len(),
{
    if x.len() <= 1 {
        x
    } else {
        let half = (x.len() / 2) as int;
        butterfly(
            hadamard(x.subrange(0, half)),
            hadamard(x.subrange(half, x.len() as int)),
        )
    }
}

/// Every element multiplied by a factor.
pub open spec fn scaled<A: Arithmetic>(x: Seq<A>, factor: A) -> Seq<A> {
    Seq::new(x.len(), |i: int| factor.times(x[i]))
}

/// The transform of a block of `4^k` elements, normalized by `2^-k`.
#[verifier::opaque]
pub open spec fn normalized<A: Arithmetic>(x: Seq<A>, k: nat) -> Seq<A> {
    hadamard(scaled(x, A::half_pow(k)))
}

/// The normalized transform of consecutive blocks: blocks of 256 while that
/// many elements are left, blocks of 64 after that.
pub open spec fn blockwise<A: Arithmetic>(x: Seq<A>) -> Seq<A>
    decreases x.len(),
{
    if x.len() >= 256 {
        normalized(x.subrange(0, 256), 4) + blockwise(x.subrange(256, x.len() as int))
    } else if x.len() >= 64 {
        normalized(x.subrange(0, 64), 3) + blockwise(x.subrange(64, x.len() as int))
    } else {
        x
    }
}

/// Replaces two halves by their sums and their differences.
fn butterfly_in_place(lo: &mut [Binary32], hi: &mut [Binary32])
    requires
        old(lo)@.len() == old(hi)@.len(),
    ensures
        final(lo)@ + final(hi)@ == butterfly(old(lo)@, old(hi)@),
        final(lo)@.len() == old(lo)@.len(),
        final(hi)@.len() == old(hi)@.len(),
{
    let n: usize = lo.len();
    let ghost l0 = lo@;
    let ghost h0 = hi@;
    let mut i: usize = 0;
    while i < n
        invariant
            i <= n,
            n == l0.len(),
            n == h0.len(),
            lo@.len() == n,
            hi@.len() == n,
            forall|k: int| 0 <= k < i ==> lo@[k] == l0[k].plus(h0[k]),
            forall|k: int| 0 <= k < i ==> hi@[k] == l0[k].minus(h0[k]),
            forall|k: int| i <= k < n ==> lo@[k] == l0[k],
            forall|k: int| i <= k < n ==> hi@[k] == h0[k],
        decreases n - i,
    {
        let a: Binary32 = lo[i];
        let b: Binary32 = hi[i];
        lo[i] = a.add(b);
        hi[i] = a.sub(b);
        i += 1;
    }
    assert(lo@ + hi@ =~= butterfly(l0, h0));
}

/// The scaled transform of a whole from the scaled transforms of its halves.
pub proof fn lemma_halves<A: Arithmetic>(x: Seq<A>, half: int, factor: A)
    requires
        half > 0,
        x.len() == 2 * half,
    ensures
        hadamard(scaled(x, factor)) == butterfly(
            hadamard(scaled(x.subrange(0, half), factor)),
            hadamard(scaled(x.subrange(half, 2 * half), factor)),
        ),
{
    let s = scaled(x, factor);
    assert(s.len() / 2 == half);
    assert(s.subrange(0, half) =~= scaled(x.subrange(0, half), factor));
    assert(s.subrange(half, s.len() as int) =~= scaled(x.subrange(half, 2 * half), factor));
}

/// The transform keeps the length of the block.
pub proof fn lemma_hadamard_len<A: Arithmetic>(x: Seq<A>, levels: nat)
    requires
        x.len() == pow2(levels),
    ensures
        hadamard(x).len() == x.len(),
    decreases levels,
{
    lemma2_to64();
    if levels > 0 {
        lemma_pow2_unfold(levels);
        lemma_pow2_pos((levels - 1) as nat);
        let half = (x.len() / 2) as int;
        lemma_hadamard_len(x.subrange(0, half), (levels - 1) as nat);
        lemma_hadamard_len(x.subrange(half, x.len() as int), (levels - 1) as nat);
    }
}

/// Transforming in blocks keeps the length.
pub proof fn lemma_blockwise_len<A: Arithmetic>(x: Seq<A>)
    ensures
        blockwise(x).len() == x.len(),
    decreases x.len(),
{
    lemma2_to64();
    reveal(normalized);
    if x.len() >= 256 {
        lemma_hadamard_len(scaled(x.subrange(0, 256), A::half_pow(4)), 8);
        lemma_blockwise_len(x.subrange(256, x.len() as int));
    } else if x.len() >= 64 {
        lemma_hadamard_len(scaled(x.subrange(0, 64), A::half_pow(3)), 6);
        lemma_blockwise_len(x.subrange(64, x.len() as int));
    }
}

/// Transforms a block of at most 16 elements.
fn transform_small(x: &mut [Binary32])
    requires
        old(x)@.len() == 1 || old(x)@.len() == 2 || old(x)@.len() == 4 || old(x)@.len() == 8 || old(
            x,
        )@.len() == 16,
    ensures
        final(x)@ == hadamard(old(x)@),
        final(x)@.len() == old(x)@.len(),
    decreases old(x)@.len(),
{
    let n: usize = x.len();
    if n > 1 {
        let (lo, hi) = x.split_at_mut(n / 2);
        transform_small(lo);
        transform_small(hi);
        butterfly_in_place(lo, hi);
    }
}

/// Transform of a block of 16 elements with the given factor.
fn fwht16_scaled(x: &mut [Binary32], normalize: Binary32)
    requires
        old(x)@.len() == 16,
    ensures
        final(x)@ == hadamard(scaled(old(x)@, normalize)),
        final(x)@.len() == 16,
{
    let ghost x0 = x@;
    let mut i: usize = 0;
    while i < 16
        invariant
            i <= 16,
            x0.len() == 16,
            x@.len() == 16,
            forall|k: int| 0 <= k < i ==> x@[k] == normalize.times(x0[k]),
            forall|k: int| i <= k < 16 ==> x@[k] == x0[k],
        decreases 16 - i,
    {
        x[i] = normalize.mul(x[i]);
        i += 1;
    }
    assert(x@ =~= scaled(x0, normalize));
    transform_small(x);
}

/// Normalized transform of the first 16 elements; the factor is applied to the
/// inputs. Elements behind them stay as they are.
pub fn fwht16(x: &mut [Binary32], normalize: Binary32)
    requires
        old(x)@.len() >= 16,
    ensures
        final(x)@ == hadamard(scaled(old(x)@.take(16), normalize)) + old(x)@.skip(16),
        final(x)@.len() == old(x)@.len(),
{
    let (block, _) = x.split_at_mut(16);
    fwht16_scaled(block, normalize);
}

/// Normalized transform of 32 elements, from two of 16.
fn fwht32(x: &mut [Binary32], normalize: Binary32)
    requires
        old(x)@.len() == 32,
    ensures
        final(x)@ == hadamard(scaled(old(x)@, normalize)),
        final(x)@.len() == 32,
{
    proof {
        lemma_halves(x@, 16, normalize);
    }
    let (lo, hi) = x.split_at_mut(16);
    fwht16_scaled(lo, normalize);
    fwht16_scaled(hi, normalize);
    butterfly_in_place(lo, hi);
}

/// Transform of 64 elements with the given factor, from two of 32.
fn fwht64_scaled(x: &mut [Binary32], normalize: Binary32)
    requires
        old(x)@.len() == 64,
    ensures
        final(x)@ == hadamard(scaled(old(x)@, normalize)),
        final(x)@.len() == 64,
{
    proof {
        lemma_halves(x@, 32, normalize);
    }
    let (lo, hi) = x.split_at_mut(32);
    fwht32(lo, normalize);
    fwht32(hi, normalize);
    butterfly_in_place(lo, hi);
}

/// Normalized transform of the first 64 elements (factor `1/8`). Elements
/// behind them stay as they are.
pub fn fwht64(x: &mut [Binary32])
    requires
        old(x)@.len() >= 64,
    ensures
        final(x)@ == normalized(old(x)@.take(64), 3) + old(x)@.skip(64),
        final(x)@.len() == old(x)@.len(),
{
    proof {
        reveal(normalized);
    }
    let (block, _) = x.split_at_mut(64);
    fwht64_scaled(block, Binary32::from_bits(EIGHTH_BITS));
}

/// Transform of the first 64 elements inside a block of 256, with that block's
/// factor `1/16`. Elements behind them stay as they are.
pub fn block64_fwht256(x: &mut [Binary32])
    requires
        old(x)@.len() >= 64,
    ensures
        final(x)@ == hadamard(scaled(old(x)@.take(64), Binary32::half_pow(4))) + old(x)@.skip(64),
        final(x)@.len() == old(x)@.len(),
{
    let (block, _) = x.split_at_mut(64);
    fwht64_scaled(block, Binary32::from_bits(SIXTEENTH_BITS));
}

/// Half of a block of 256.
fn block128_fwht256(x: &mut [Binary32])
    requires
        old(x)@.len() == 128,
    ensures
        final(x)@ == hadamard(scaled(old(x)@, Binary32::half_pow(4))),
        final(x)@.len() == 128,
{
    proof {
        lemma_halves(x@, 64, Binary32::half_pow(4));
    }
    let (lo, hi) = x.split_at_mut(64);
    assert(lo@.take(64) =~= lo@ && hi@.take(64) =~= hi@);
    block64_fwht256(lo);
    block64_fwht256(hi);
    butterfly_in_place(lo, hi);
}

/// Normalized transform of the first 256 elements (factor `1/16`). Elements
/// behind them stay as they are.
pub fn fwht256(x: &mut [Binary32])
    requires
        old(x)@.len() >= 256,
    ensures
        final(x)@ == normalized(old(x)@.take(256), 4) + old(x)@.skip(256),
        final(x)@.len() == old(x)@.len(),
{
    let (block, _) = x.split_at_mut(256);
    proof {
        reveal(normalized);
        lemma_halves(block@, 128, Binary32::half_pow(4));
    }
    let (lo, hi) = block.split_at_mut(128);
    block128_fwht256(lo);
    block128_fwht256(hi);
    butterfly_in_place(lo, hi);
}

/// Transforms consecutive blocks in place: blocks of 256 while that many
/// elements are left, blocks of 64 after that.
pub fn block_fwht(x: &mut [Binary32])
    requires
        old(x)@.len() % 64 == 0,
    ensures
        final(x)@ == blockwise(old(x)@),
        final(x)@.len() == old(x)@.len(),
{
    let ghost x0 = x@;
    let ghost mut done: Seq<Binary32> = Seq::empty();
    let mut rest: &mut [Binary32] = x;
    while rest.len() > 0
        invariant
            rest@.len() % 64 == 0,
            x0.len() == done.len() + rest@.len(),
            blockwise(x0) == done + blockwise(rest@),
            after_borrow(x)@ == done + final(rest)@,
        decreases rest@.len(),
    {
        if rest.len() >= 256 {
            let (block, tail) = rest.split_at_mut(256);
            assert(block@.take(256) =~= block@);
            fwht256(block);
            proof {
                done = done + block@;
            }
            rest = tail;
        } else {
            let (block, tail) = rest.split_at_mut(64);
            assert(block@.take(64) =~= block@);
            fwht64(block);
            proof {
                done = done + block@;
            }
            rest = tail;
        }
    }
}

} // verus!
