//! Fast pseudo-random orthogonal rotation.
//!
//! A rotation round is:
//!
//! 1. random sign flips (a diagonal `±1` matrix), together with
//! 2. a random pairwise permutation (swaps), then
//! 3. a block fast Walsh-Hadamard transform in blocks of 256 (falling back to
//!    64 for the tail).
//!
//! Each piece is orthogonal, so the whole rotation preserves inner products.
//! The transform is normalized so that it is its own inverse; that is why
//! [`FastRotation::rotate`] and [`FastRotation::unrotate`] apply the same
//! transform, with the sign and swap steps undone in reverse order.

use crate::arith::Arithmetic;
use crate::binary32::Binary32;
use crate::hadamard::block_fwht;
#[allow(unused_imports)]
use crate::hadamard::blockwise;
#[allow(unused_imports)]
use crate::pairing::{
    drawn_signs, lemma_state_after_adds, matching, random_signs, random_swaps, shuffle_draws,
    shuffled, sorted_swaps_of, Swap,
};
#[allow(unused_imports)]
use crate::rng::{state_after, SplitMix64};
use vstd::prelude::*;
use vstd::slice::slice_to_vec;

verus! {

/// Default rotation seed.
pub const DEFAULT_FAST_ROTATION_SEED: u64 = 0x535a_b510_5169_b1df;

/// What a seed is combined with to give the state of the generator.
pub const SEED_MASK: u64 = 0x385a_b528_5169_b1ac;

/// What a rotation consists of.
#[verifier::ext_equal]
pub struct RotationModel<A> {
    /// Dimension of the rotated output.
    pub dim: nat,
    /// Number of rounds applied.
    pub rounds: nat,
    /// The swaps of each round.
    pub swaps: Seq<Seq<Swap>>,
    /// The signs of each round.
    pub signs: Seq<Seq<A>>,
}

/// `x` cut or zero-padded to `dim` elements.
pub open spec fn padded<A: Arithmetic>(x: Seq<A>, dim: nat) -> Seq<A> {
    Seq::new(
        dim,
        |k: int|
            if k < x.len() {
                x[k]
            } else {
                A::of_nat(0)
            },
    )
}

/// Exchanges two elements, each multiplied by the sign of its new place.
pub open spec fn swap_step<A: Arithmetic>(x: Seq<A>, s: Swap, signs: Seq<A>) -> Seq<A> {
    let (i, j) = (s.i as int, s.j as int);
    x.update(i, signs[i].times(x[j])).update(j, signs[j].times(x[i]))
}

/// Exchanges two elements, each multiplied by the sign of its old place.
pub open spec fn unswap_step<A: Arithmetic>(x: Seq<A>, s: Swap, signs: Seq<A>) -> Seq<A> {
    let (i, j) = (s.i as int, s.j as int);
    x.update(i, signs[j].times(x[j])).update(j, signs[i].times(x[i]))
}

/// All swaps of a round, first to last.
pub open spec fn swap_pass<A: Arithmetic>(x: Seq<A>, swaps: Seq<Swap>, signs: Seq<A>) -> Seq<A>
    decreases swaps.len(),
{
    if swaps.len() == 0 {
        x
    } else {
        swap_step(swap_pass(x, swaps.drop_last(), signs), swaps.last(), signs)
    }
}

/// All swaps of a round undone, last to first.
pub open spec fn unswap_pass<A: Arithmetic>(x: Seq<A>, swaps: Seq<Swap>, signs: Seq<A>) -> Seq<A>
    decreases swaps.len(),
{
    if swaps.len() == 0 {
        x
    } else {
        unswap_pass(unswap_step(x, swaps.last(), signs), swaps.drop_last(), signs)
    }
}

impl<A: Arithmetic> RotationModel<A> {
    /// The output dimension is a positive multiple of 64.
    pub open spec fn well_formed(self) -> bool {
        &&& self.dim % 64 == 0
        &&& self.dim >= 64
    }

    /// Rounds, swaps and signs fit vectors of length `len`.
    pub open spec fn applies_to(self, len: nat) -> bool {
        &&& self.rounds <= self.swaps.len()
        &&& self.rounds <= self.signs.len()
        &&& self.rounds > 0 ==> len % 64 == 0
        &&& forall|r: int, k: int|
            0 <= r < self.rounds && 0 <= k < self.swaps[r].len() ==> {
                let s = #[trigger] self.swaps[r][k];
                &&& s.i < len && s.i < self.signs[r].len()
                &&& s.j < len && s.j < self.signs[r].len()
            }
    }

    /// The first `rounds` rounds.
    pub open spec fn forward(self, x: Seq<A>, rounds: nat) -> Seq<A>
        decreases rounds,
    {
        if rounds == 0 {
            x
        } else {
            let r = rounds - 1;
            blockwise(swap_pass(self.forward(x, r as nat), self.swaps[r], self.signs[r]))
        }
    }

    /// The first `rounds` rounds undone, last to first.
    pub open spec fn backward(self, x: Seq<A>, rounds: nat) -> Seq<A>
        decreases rounds,
    {
        if rounds == 0 {
            x
        } else {
            let r = rounds - 1;
            self.backward(unswap_pass(blockwise(x), self.swaps[r], self.signs[r]), r as nat)
        }
    }

    /// The rotated vector.
    pub open spec fn rotated(self, x: Seq<A>) -> Seq<A> {
        self.forward(padded(x, self.dim), self.rounds)
    }

    /// The vector rotated back.
    pub open spec fn unrotated(self, x: Seq<A>) -> Seq<A> {
        self.backward(x, self.rounds)
    }
}

/// The least multiple of 64 that is positive and not below `input_dim`.
pub open spec fn padded_to_64(input_dim: nat) -> nat {
    if input_dim == 0 {
        64
    } else {
        (input_dim + 63) / 64 * 64
    }
}

/// Draws that one round of a rotation takes.
pub open spec fn round_draws(dim: nat) -> nat {
    shuffle_draws(dim) + dim
}

/// The generator's state at the start of a round.
pub open spec fn round_state(seed: u64, dim: nat, round: nat) -> u64 {
    state_after(seed ^ SEED_MASK, round * round_draws(dim))
}

/// The rotation that a seed gives: in each round a shuffle of all indices, cut
/// into pairs, then the signs.
pub open spec fn seeded(
    m: RotationModel<Binary32>,
    input_dim: nat,
    rounds: nat,
    seed: u64,
) -> bool {
    &&& m.dim == padded_to_64(input_dim)
    &&& m.rounds == rounds
    &&& m.swaps.len() == rounds
    &&& m.signs.len() == rounds
    &&& forall|r: int|
        0 <= r < rounds ==> sorted_swaps_of(
            #[trigger] m.swaps[r],
            shuffled(m.dim, round_state(seed, m.dim, r as nat), shuffle_draws(m.dim)),
        )
    &&& forall|r: int|
        0 <= r < rounds ==> #[trigger] m.signs[r] == drawn_signs(
            state_after(round_state(seed, m.dim, r as nat), shuffle_draws(m.dim)),
            m.dim,
        )
}

/// Round `input_dim` up to the next multiple of 64 (minimum 64).
pub fn padded_dim(input_dim: usize) -> (out: usize)
    requires
        input_dim <= usize::MAX - 63,
    ensures
        out == padded_to_64(input_dim as nat),
        out % 64 == 0,
        out >= 64,
        out >= input_dim,
{
    let mut out: usize = 64;
    while out < input_dim
        invariant
            input_dim <= usize::MAX - 63,
            out % 64 == 0,
            out >= 64,
            out == 64 || out < input_dim + 64,
        decreases input_dim + 64 - out,
    {
        out += 64;
    }
    out
}

/// A realized random rotation; holds one set of swaps and signs per round.
#[derive(Debug, PartialEq)]
pub struct FastRotation {
    output_dim: usize,
    rounds: usize,
    swaps: Vec<Vec<Swap>>,
    signs: Vec<Vec<Binary32>>,
}

impl View for FastRotation {
    type V = RotationModel<Binary32>;

    closed spec fn view(&self) -> RotationModel<Binary32> {
        RotationModel {
            dim: self.output_dim as nat,
            rounds: self.rounds as nat,
            swaps: Seq::new(self.swaps@.len(), |r: int| self.swaps@[r]@),
            signs: Seq::new(self.signs@.len(), |r: int| self.signs@[r]@),
        }
    }
}

impl FastRotation {
    /// The output dimension is a positive multiple of 64.
    #[verifier::type_invariant]
    spec fn padded_output(self) -> bool {
        &&& self.output_dim % 64 == 0
        &&& self.output_dim >= 64
    }

    /// Build a rotation for `input_dim`-dimensional inputs using `rounds`
    /// rounds and the given `seed`.
    pub fn new(input_dim: usize, rounds: usize, seed: u64) -> (rotation: FastRotation)
        requires
            input_dim <= usize::MAX - 63,
            rounds > 0 ==> padded_to_64(input_dim as nat) <= u32::MAX,
        ensures
            seeded(rotation@, input_dim as nat, rounds as nat, seed),
            rotation@.well_formed(),
            rotation@.applies_to(rotation@.dim),
            forall|r: int|
                0 <= r < rounds ==> matching(#[trigger] rotation@.swaps[r], rotation@.dim),
    {
        let output_dim: usize = padded_dim(input_dim);
        let ghost dim = output_dim as nat;
        let mut rng: SplitMix64 = SplitMix64::new(seed ^ SEED_MASK);
        let mut swaps: Vec<Vec<Swap>> = Vec::with_capacity(rounds);
        let mut signs: Vec<Vec<Binary32>> = Vec::with_capacity(rounds);
        let mut r: usize = 0;
        proof {
            assert(0 * round_draws(dim) == 0);
        }
        while r < rounds
            invariant
                r <= rounds,
                rounds > 0 ==> output_dim <= u32::MAX,
                output_dim % 64 == 0,
                output_dim >= 64,
                dim == output_dim,
                rng.state() == round_state(seed, dim, r as nat),
                swaps@.len() == r,
                signs@.len() == r,
                forall|q: int|
                    0 <= q < r ==> sorted_swaps_of(
                        (#[trigger] swaps@[q])@,
                        shuffled(dim, round_state(seed, dim, q as nat), shuffle_draws(dim)),
                    ),
                forall|q: int| 0 <= q < r ==> matching((#[trigger] swaps@[q])@, dim),
                forall|q: int|
                    0 <= q < r ==> (#[trigger] signs@[q])@ == drawn_signs(
                        state_after(round_state(seed, dim, q as nat), shuffle_draws(dim)),
                        dim,
                    ),
            decreases rounds - r,
        {
            swaps.push(random_swaps(output_dim, &mut rng));
            signs.push(random_signs(output_dim, &mut rng));
            proof {
                let s0 = seed ^ SEED_MASK;
                let done = r as nat * round_draws(dim);
                lemma_state_after_adds(s0, done, shuffle_draws(dim));
                lemma_state_after_adds(s0, done + shuffle_draws(dim), dim);
                assert((r + 1) as nat * round_draws(dim) == done + round_draws(dim))
                    by (nonlinear_arith)
                    requires
                        done == r as nat * round_draws(dim),
                ;
            }
            r += 1;
        }
        FastRotation { output_dim, rounds, swaps, signs }
    }

    /// Reconstruct a rotation from previously stored pieces. The output
    /// dimension must be a positive multiple of 64, as that of every rotation.
    pub fn restore(
        output_dim: usize,
        rounds: usize,
        swaps: Vec<Vec<Swap>>,
        signs: Vec<Vec<Binary32>>,
    ) -> (rotation: FastRotation)
        requires
            output_dim % 64 == 0,
            output_dim >= 64,
        ensures
            rotation@.dim == output_dim,
            rotation@.rounds == rounds,
            rotation@.swaps == Seq::new(swaps@.len(), |r: int| swaps@[r]@),
            rotation@.signs == Seq::new(signs@.len(), |r: int| signs@[r]@),
    {
        FastRotation { output_dim, rounds, swaps, signs }
    }

    /// The swaps of each round.
    pub fn swaps(&self) -> (swaps: &[Vec<Swap>])
        ensures
            self@.swaps == Seq::new(swaps@.len(), |r: int| swaps@[r]@),
    {
        self.swaps.as_slice()
    }

    /// The signs of each round.
    pub fn signs(&self) -> (signs: &[Vec<Binary32>])
        ensures
            self@.signs == Seq::new(signs@.len(), |r: int| signs@[r]@),
    {
        self.signs.as_slice()
    }

    /// Whether the rotation applies to vectors of length `len`: it has swaps and
    /// signs for every round, all of them for indices below `len`, and `len`
    /// is a multiple of 64. Every rotation built from a seed applies to vectors
    /// of its output dimension; one that was restored from stored pieces may
    /// not.
    pub fn applies(&self, len: usize) -> (r: bool)
        ensures
            r == self@.applies_to(len as nat),
    {
        let ghost m = self@;
        if self.rounds > self.swaps.len() || self.rounds > self.signs.len() {
            return false;
        }
        if self.rounds > 0 && len % 64 != 0 {
            return false;
        }
        let mut round: usize = 0;
        while round < self.rounds
            invariant
                m == self@,
                round <= self.rounds,
                self.rounds <= self.swaps@.len(),
                self.rounds <= self.signs@.len(),
                forall|r: int, k: int|
                    0 <= r < round && 0 <= k < m.swaps[r].len() ==> {
                        let s = #[trigger] m.swaps[r][k];
                        &&& s.i < len && s.i < m.signs[r].len()
                        &&& s.j < len && s.j < m.signs[r].len()
                    },
            decreases self.rounds - round,
        {
            let swaps: &Vec<Swap> = &self.swaps[round];
            let n: usize = self.signs[round].len();
            let mut k: usize = 0;
            while k < swaps.len()
                invariant
                    m == self@,
                    round < self.rounds,
                    self.rounds <= self.swaps@.len(),
                    self.rounds <= self.signs@.len(),
                    k <= swaps@.len(),
                    swaps@ == m.swaps[round as int],
                    n == m.signs[round as int].len(),
                    forall|l: int|
                        0 <= l < k ==> {
                            let s = #[trigger] m.swaps[round as int][l];
                            &&& s.i < len && s.i < n
                            &&& s.j < len && s.j < n
                        },
                decreases swaps@.len() - k,
            {
                let s: Swap = swaps[k];
                let (i, j) = (s.i as usize, s.j as usize);
                if i >= len || i >= n || j >= len || j >= n {
                    assert(m.swaps[round as int][k as int] == s);
                    return false;
                }
                k += 1;
            }
            round += 1;
        }
        true
    }

    /// Output (rotated) dimension. Always a multiple of 64.
    pub fn output_dim(&self) -> (dim: usize)
        ensures
            dim == self@.dim,
            dim % 64 == 0,
            dim >= 64,
    {
        proof {
            use_type_invariant(self);
        }
        self.output_dim
    }

    /// Number of rounds.
    pub fn rounds(&self) -> (rounds: usize)
        ensures
            rounds == self@.rounds,
    {
        self.rounds
    }

    /// Rotate `x`, returning a vector of the output dimension; longer inputs
    /// are cut and shorter ones zero-padded.
    pub fn rotate(&self, x: &[Binary32]) -> (rx: Vec<Binary32>)
        requires
            self@.applies_to(self@.dim),
        ensures
            rx@ == self@.rotated(x@),
            rx@.len() == self@.dim,
    {
        let ghost m = self@;
        let mut rx: Vec<Binary32> = Vec::with_capacity(self.output_dim);
        let mut k: usize = 0;
        while k < self.output_dim
            invariant
                k <= self.output_dim,
                rx@ =~= padded(x@, k as nat),
            decreases self.output_dim - k,
        {
            if k < x.len() {
                rx.push(x[k]);
            } else {
                rx.push(Binary32::from_u64(0));
            }
            k += 1;
        }
        let mut round: usize = 0;
        while round < self.rounds
            invariant
                round <= self.rounds,
                m == self@,
                m.applies_to(m.dim),
                rx@.len() == m.dim,
                rx@ == m.forward(padded(x@, m.dim), round as nat),
            decreases self.rounds - round,
        {
            proof {
                assert forall|k: int| 0 <= k < self.swaps@[round as int]@.len() implies {
                    let s = #[trigger] self.swaps@[round as int]@[k];
                    &&& s.i < m.dim && s.i < self.signs@[round as int]@.len()
                    &&& s.j < m.dim && s.j < self.signs@[round as int]@.len()
                } by {
                    assert(m.swaps[round as int][k] == self.swaps@[round as int]@[k]);
                }
            }
            apply_swaps(
                rx.as_mut_slice(),
                self.swaps[round].as_slice(),
                self.signs[round].as_slice(),
            );
            block_fwht(rx.as_mut_slice());
            round += 1;
        }
        rx
    }

    /// Allocate a copy and un-rotate it.
    pub fn unrotate(&self, rx: &[Binary32]) -> (x: Vec<Binary32>)
        requires
            self@.applies_to(rx@.len()),
        ensures
            x@ == self@.unrotated(rx@),
            x@.len() == rx@.len(),
    {
        let mut x: Vec<Binary32> = slice_to_vec(rx);
        self.unrotate_in_place(x.as_mut_slice());
        x
    }

    /// Invert [`rotate`](Self::rotate) in place.
    pub fn unrotate_in_place(&self, x: &mut [Binary32])
        requires
            self@.applies_to(old(x)@.len()),
        ensures
            final(x)@ == self@.unrotated(old(x)@),
            final(x)@.len() == old(x)@.len(),
    {
        let ghost m = self@;
        let ghost x0 = x@;
        let mut left: usize = self.rounds;
        while left > 0
            invariant
                left <= self.rounds,
                m == self@,
                m.applies_to(x0.len()),
                x@.len() == x0.len(),
                m.backward(x@, left as nat) == m.unrotated(x0),
            decreases left,
        {
            let round: usize = left - 1;
            block_fwht(x);
            undo_swaps(x, &self.swaps[round], &self.signs[round]);
            left = round;
        }
    }
}

impl Clone for FastRotation {
    fn clone(&self) -> (rotation: FastRotation)
        ensures
            rotation@ == self@,
    {
        proof {
            use_type_invariant(self);
        }
        let swaps: Vec<Vec<Swap>> = self.swaps.clone();
        let signs: Vec<Vec<Binary32>> = self.signs.clone();
        let rotation: FastRotation = FastRotation {
            output_dim: self.output_dim,
            rounds: self.rounds,
            swaps,
            signs,
        };
        assert forall|r: int| 0 <= r < swaps@.len() implies swaps@[r]@ == self.swaps@[r]@ by {
            assert(swaps@[r]@ =~= self.swaps@[r]@);
        }
        assert forall|r: int| 0 <= r < signs@.len() implies signs@[r]@ == self.signs@[r]@ by {
            assert(signs@[r]@ =~= self.signs@[r]@);
        }
        assert(rotation@ =~= self@);
        rotation
    }
}

/// Applies the swaps of a round in place.
fn apply_swaps(x: &mut [Binary32], swaps: &[Swap], signs: &[Binary32])
    requires
        forall|k: int|
            0 <= k < swaps@.len() ==> {
                let s = #[trigger] swaps@[k];
                &&& s.i < old(x)@.len() && s.i < signs@.len()
                &&& s.j < old(x)@.len() && s.j < signs@.len()
            },
    ensures
        final(x)@ == swap_pass(old(x)@, swaps@, signs@),
        final(x)@.len() == old(x)@.len(),
{
    let ghost x0 = x@;
    let mut k: usize = 0;
    while k < swaps.len()
        invariant
            k <= swaps@.len(),
            x@.len() == x0.len(),
            forall|l: int|
                0 <= l < swaps@.len() ==> {
                    let s = #[trigger] swaps@[l];
                    &&& s.i < x0.len() && s.i < signs@.len()
                    &&& s.j < x0.len() && s.j < signs@.len()
                },
            x@ == swap_pass(x0, swaps@.take(k as int), signs@),
        decreases swaps@.len() - k,
    {
        let s: Swap = swaps[k];
        let (i, j) = (s.i as usize, s.j as usize);
        let (a, b) = (x[i], x[j]);
        x[i] = signs[i].mul(b);
        x[j] = signs[j].mul(a);
        proof {
            let next = swaps@.take(k + 1);
            assert(next.drop_last() =~= swaps@.take(k as int));
            assert(next.last() == s);
        }
        k += 1;
    }
    assert(swaps@.take(k as int) =~= swaps@);
}

/// Undoes the swaps of a round in place, last to first.
fn undo_swaps(x: &mut [Binary32], swaps: &[Swap], signs: &[Binary32])
    requires
        forall|k: int|
            0 <= k < swaps@.len() ==> {
                let s = #[trigger] swaps@[k];
                &&& s.i < old(x)@.len() && s.i < signs@.len()
                &&& s.j < old(x)@.len() && s.j < signs@.len()
            },
    ensures
        final(x)@ == unswap_pass(old(x)@, swaps@, signs@),
        final(x)@.len() == old(x)@.len(),
{
    let ghost x0 = x@;
    let mut left: usize = swaps.len();
    assert(swaps@.take(left as int) =~= swaps@);
    while left > 0
        invariant
            left <= swaps@.len(),
            x@.len() == x0.len(),
            forall|l: int|
                0 <= l < swaps@.len() ==> {
                    let s = #[trigger] swaps@[l];
                    &&& s.i < x0.len() && s.i < signs@.len()
                    &&& s.j < x0.len() && s.j < signs@.len()
                },
            unswap_pass(x@, swaps@.take(left as int), signs@) == unswap_pass(x0, swaps@, signs@),
        decreases left,
    {
        let s: Swap = swaps[left - 1];
        let (i, j) = (s.i as usize, s.j as usize);
        let (a, b) = (x[i], x[j]);
        proof {
            let now = swaps@.take(left as int);
            assert(now.drop_last() =~= swaps@.take(left - 1));
            assert(now.last() == s);
        }
        x[i] = signs[j].mul(b);
        x[j] = signs[i].mul(a);
        left = left - 1;
    }
}

} // verus!
