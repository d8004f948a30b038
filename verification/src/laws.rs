//! Properties of quantizers, codes and rotations as they are computed.

#[allow(unused_imports)]
use crate::algebra::{lemma_quotient_unit, quotient};
#[allow(unused_imports)]
use crate::arith::Arithmetic;
#[allow(unused_imports)]
use crate::binary32::{body_magnitude, Binary32, ONE_BITS};
#[allow(unused_imports)]
use crate::code::{
    clamped, flat, law_flat_then_parse, law_parse_then_flat, parsed, Bits, CodeModel,
    RQ_METADATA_SIZE,
};
#[allow(unused_imports)]
use crate::encoding::{cut, dot_upto, encodable, encoded};
#[allow(unused_imports)]
use crate::error::Error;
#[allow(unused_imports)]
use crate::exact::{
    differences, inner_product, law_rotation_keeps, law_rotation_undone, shorter, signed_rotation,
    unit_sign,
};
#[allow(unused_imports)]
use crate::hadamard::lemma_blockwise_len;
#[allow(unused_imports)]
use crate::pairing::{
    lemma_shuffled_permutation, lemma_sorted_swaps_match, matching, shuffle_draws, shuffled,
    sorted_swaps_of, Swap, MINUS_ONE_BITS,
};
use crate::quantizer::{DistancerModel, QuantizerModel};
#[allow(unused_imports)]
use crate::rotation::{padded, padded_to_64, round_state, seeded, swap_pass, RotationModel};
#[allow(unused_imports)]
use crate::rounded::is_sign;
use vstd::arithmetic::power2::{lemma2_to64, lemma_pow2_adds, lemma_pow2_pos, pow2};
use vstd::prelude::*;

verus! {

/// The output dimension is the least positive multiple of 64 that is not below
/// the input dimension.
pub proof fn law_output_dimension(input_dim: nat, other: nat)
    ensures
        padded_to_64(input_dim) % 64 == 0,
        padded_to_64(input_dim) >= 64,
        padded_to_64(input_dim) >= input_dim,
        other % 64 == 0 && other >= 64 && other >= input_dim ==> other >= padded_to_64(input_dim),
{
    let (k, j) = ((input_dim + 63) / 64, other / 64);
    assert(64 * k <= input_dim + 63 < 64 * k + 64);
    assert(k * 64 == 64 * k && (64 * k) % 64 == 0);
    if other % 64 == 0 && other >= input_dim {
        assert(other == 64 * j);
        assert(j >= k);
    }
}

/// Two lists of swaps in ascending order that hold the same swaps are equal.
proof fn lemma_sorted_swaps_unique(a: Seq<Swap>, b: Seq<Swap>, p: Seq<u32>)
    requires
        sorted_swaps_of(a, p),
        sorted_swaps_of(b, p),
    ensures
        a == b,
{
    assert(a.no_duplicates());
    assert(b.no_duplicates());
    a.unique_seq_to_set();
    b.unique_seq_to_set();
    assert(a.len() == b.len());
    assert forall|k: int| 0 <= k < a.len() implies #[trigger] a[k] == b[k] by {
        lemma_sorted_swaps_agree(a, b, k);
    }
    assert(a =~= b);
}

proof fn lemma_sorted_swaps_agree(a: Seq<Swap>, b: Seq<Swap>, k: int)
    requires
        a.to_set() == b.to_set(),
        a.len() == b.len(),
        forall|s: int, t: int| 0 <= s < t < a.len() ==> a[s].i < a[t].i,
        forall|s: int, t: int| 0 <= s < t < b.len() ==> b[s].i < b[t].i,
        0 <= k < a.len(),
    ensures
        forall|l: int| 0 <= l <= k ==> #[trigger] a[l] == b[l],
    decreases k,
{
    if k > 0 {
        lemma_sorted_swaps_agree(a, b, k - 1);
    }
    assert(a.to_set().contains(a[k]));
    assert(b.to_set().contains(b[k]));
    assert(b.contains(a[k]));
    assert(a.contains(b[k]));
    let l = choose|l: int| 0 <= l < b.len() && #[trigger] b[l] == a[k];
    let m = choose|m: int| 0 <= m < a.len() && #[trigger] a[m] == b[k];
    if l < k {
        assert(a[l] == b[l]);
    }
    if m < k {
        assert(a[m] == b[m]);
    }
}

/// The seed, the input dimension and the number of rounds determine the
/// rotation.
pub proof fn law_seed_determines_rotation(
    a: RotationModel<Binary32>,
    b: RotationModel<Binary32>,
    input_dim: nat,
    rounds: nat,
    seed: u64,
)
    requires
        seeded(a, input_dim, rounds, seed),
        seeded(b, input_dim, rounds, seed),
    ensures
        a == b,
{
    assert forall|r: int| 0 <= r < rounds implies #[trigger] a.swaps[r] == b.swaps[r] by {
        lemma_sorted_swaps_unique(
            a.swaps[r],
            b.swaps[r],
            shuffled(a.dim, round_state(seed, a.dim, r as nat), shuffle_draws(a.dim)),
        );
    }
    assert forall|r: int| 0 <= r < rounds implies #[trigger] a.signs[r] == b.signs[r] by {}
    assert(a.swaps =~= b.swaps);
    assert(a.signs =~= b.signs);
}

/// The real number that a finite number stands for.
pub open spec fn exact_value(x: Binary32) -> real {
    quotient(x.units() as real, pow2(149) as real)
}

/// The real numbers that finite numbers stand for.
pub open spec fn exact_values(x: Seq<Binary32>) -> Seq<real> {
    Seq::new(x.len(), |k: int| exact_value(x[k]))
}

/// The same rotation of real vectors.
pub open spec fn exact_rotation(m: RotationModel<Binary32>) -> RotationModel<real> {
    RotationModel {
        dim: m.dim,
        rounds: m.rounds,
        swaps: m.swaps,
        signs: Seq::new(m.signs.len(), |r: int| exact_values(m.signs[r])),
    }
}

/// The values of the two signs.
pub proof fn lemma_sign_values()
    ensures
        exact_value(Binary32 { bits: ONE_BITS }) == 1real,
        exact_value(Binary32 { bits: MINUS_ONE_BITS }) == -1real,
{
    let (p, m) = (Binary32 { bits: ONE_BITS }, Binary32 { bits: MINUS_ONE_BITS });
    lemma2_to64();
    lemma_pow2_adds(23, 126);
    lemma_pow2_pos(149);
    assert(p.body() == 0x3f80_0000 && m.body() == 0x3f80_0000);
    assert(body_magnitude(0x3f80_0000) == 0x80_0000 * pow2(126));
    lemma_quotient_unit(pow2(149) as real);
}

/// The signs of a rotation are finite numbers.
pub open spec fn finite_signs(m: RotationModel<Binary32>) -> bool {
    forall|r: int, k: int|
        0 <= r < m.rounds && 0 <= k < m.signs[r].len() ==> (#[trigger] m.signs[r][k]).finite()
}

/// A rotation of vectors of length `len` whose signs are all one or minus one.
pub open spec fn plain_rotation(m: RotationModel<Binary32>, len: nat) -> bool {
    &&& m.applies_to(len)
    &&& forall|r: int, k: int|
        0 <= r < m.rounds && 0 <= k < m.signs[r].len() ==> is_sign(#[trigger] m.signs[r][k])
}

/// Of a rotation whose signs are one or minus one, the exact rotation has the
/// same signs, and the signs are finite.
pub proof fn lemma_plain_signed(m: RotationModel<Binary32>, len: nat)
    requires
        plain_rotation(m, len),
    ensures
        finite_signs(m),
        signed_rotation(exact_rotation(m), len),
{
    let e = exact_rotation(m);
    lemma_sign_values();
    assert forall|r: int, k: int| 0 <= r < e.rounds && 0 <= k < e.swaps[r].len() implies ({
        let s = #[trigger] e.swaps[r][k];
        &&& s.i < len && s.i < e.signs[r].len()
        &&& s.j < len && s.j < e.signs[r].len()
    }) by {
        assert(m.swaps[r][k] == e.swaps[r][k]);
    }
    assert forall|r: int, k: int| 0 <= r < e.rounds && 0 <= k < e.signs[r].len() implies unit_sign(
        #[trigger] e.signs[r][k],
    ) by {
        assert(e.signs[r][k] == exact_value(m.signs[r][k]));
        assert(is_sign(m.signs[r][k]));
    }
    assert forall|r: int, k: int| 0 <= r < m.rounds && 0 <= k < m.signs[r].len() implies (
    #[trigger] m.signs[r][k]).finite() by {
        assert(is_sign(m.signs[r][k]));
    }
}

/// A rotation built from a seed applies to vectors of its output dimension;
/// every round swaps each index exactly once, and all signs are one or minus
/// one. Without rounding it is therefore undone by rotating back, and keeps
/// inner products and norms.
pub proof fn law_seeded_rotation(
    m: RotationModel<Binary32>,
    input_dim: nat,
    rounds: nat,
    seed: u64,
)
    requires
        seeded(m, input_dim, rounds, seed),
        m.dim <= u32::MAX,
    ensures
        m.well_formed(),
        m.applies_to(m.dim),
        forall|r: int| 0 <= r < rounds ==> matching(#[trigger] m.swaps[r], m.dim),
        plain_rotation(m, m.dim),
        finite_signs(m),
        signed_rotation(exact_rotation(m), m.dim),
{
    law_output_dimension(input_dim, 0);
    assert forall|r: int| 0 <= r < rounds implies matching(#[trigger] m.swaps[r], m.dim) by {
        let s = round_state(seed, m.dim, r as nat);
        lemma_shuffled_permutation(m.dim, s, shuffle_draws(m.dim));
        lemma_sorted_swaps_match(m.swaps[r], shuffled(m.dim, s, shuffle_draws(m.dim)), m.dim);
    }
    assert forall|r: int, k: int| 0 <= r < rounds && 0 <= k < m.swaps[r].len() implies ({
        let s = #[trigger] m.swaps[r][k];
        &&& s.i < m.dim && s.i < m.signs[r].len()
        &&& s.j < m.dim && s.j < m.signs[r].len()
    }) by {
        assert(matching(m.swaps[r], m.dim));
        assert(m.signs[r].len() == m.dim);
    }
    lemma_plain_signed(m, m.dim);
}

/// A rotation built from a seed, without rounding: rotating back gives the
/// input, zero-padded to the output dimension, and inner products and squared
/// distances are kept, where entries that a vector does not have count as zero.
pub proof fn law_seeded_rotation_orthogonal(
    m: RotationModel<Binary32>,
    input_dim: nat,
    rounds: nat,
    seed: u64,
    x: Seq<real>,
    y: Seq<real>,
)
    requires
        seeded(m, input_dim, rounds, seed),
        m.dim <= u32::MAX,
    ensures
        ({
            let r = exact_rotation(m);
            let off = differences(r.rotated(x), r.rotated(y));
            let d = differences(padded(x, m.dim), padded(y, m.dim));
            &&& r.unrotated(r.rotated(x)) == padded(x, m.dim)
            &&& inner_product(r.rotated(x), r.rotated(y)) == dot_upto(x, y, shorter(m.dim, x, y))
            &&& inner_product(off, off) == inner_product(d, d)
        }),
{
    law_seeded_rotation(m, input_dim, rounds, seed);
    law_rotation_undone(exact_rotation(m), x, padded(x, m.dim));
    law_rotation_keeps(exact_rotation(m), x, y);
}

/// Swaps keep the length.
pub proof fn lemma_swap_pass_len<A: Arithmetic>(x: Seq<A>, swaps: Seq<Swap>, signs: Seq<A>)
    requires
        forall|k: int|
            0 <= k < swaps.len() ==> (#[trigger] swaps[k]).i < x.len() && swaps[k].j < x.len(),
    ensures
        swap_pass(x, swaps, signs).len() == x.len(),
    decreases swaps.len(),
{
    if swaps.len() > 0 {
        lemma_swap_pass_len(x, swaps.drop_last(), signs);
    }
}

/// Rounds keep the length.
pub proof fn lemma_forward_len<A: Arithmetic>(m: RotationModel<A>, x: Seq<A>, rounds: nat)
    requires
        m.applies_to(x.len()),
        rounds <= m.rounds,
    ensures
        m.forward(x, rounds).len() == x.len(),
    decreases rounds,
{
    if rounds > 0 {
        let r = rounds - 1;
        let f = m.forward(x, r as nat);
        lemma_forward_len(m, x, r as nat);
        assert forall|k: int| 0 <= k < m.swaps[r].len() implies (#[trigger] m.swaps[r][k]).i
            < x.len() && m.swaps[r][k].j < x.len() by {}
        lemma_swap_pass_len(f, m.swaps[r], m.signs[r]);
        lemma_blockwise_len(swap_pass(f, m.swaps[r], m.signs[r]));
    }
}

/// A rotated vector has the output dimension.
pub proof fn law_rotated_dimension<A: Arithmetic>(m: RotationModel<A>, x: Seq<A>)
    requires
        m.applies_to(m.dim),
    ensures
        m.rotated(x).len() == m.dim,
{
    lemma_forward_len(m, padded(x, m.dim), m.rounds);
}

/// Every code of a quantizer has its output dimension and bit width, and takes
/// the same number of bytes.
pub proof fn law_code_size(m: RotationModel<Binary32>, x: Seq<Binary32>, bits: Bits)
    requires
        m.well_formed(),
        encodable(m, x),
    ensures
        encoded(m, x, bits).bits == bits,
        encoded(m, x, bits).dimension() == m.dim,
        encoded(m, x, bits).codes.len() == bits.bytes_for(m.dim),
        flat(encoded(m, x, bits)).len() == RQ_METADATA_SIZE + bits.bytes_for(m.dim),
{
    lemma_code_shape(m, x, bits);
    law_flat_then_parse(encoded(m, x, bits));
}

/// The width and the number of bytes of a code.
proof fn lemma_code_shape(m: RotationModel<Binary32>, x: Seq<Binary32>, bits: Bits)
    requires
        encodable(m, x),
    ensures
        encoded(m, x, bits).bits == bits,
        encoded(m, x, bits).codes.len() == bits.bytes_for(m.dim),
{
    if x.len() > 0 {
        law_rotated_dimension(m, cut(x, m.dim));
    }
}

/// Padding an input with zeros up to the output dimension does not change the
/// rotated vector.
pub proof fn law_rotation_pads<A: Arithmetic>(m: RotationModel<A>, x: Seq<A>)
    ensures
        m.rotated(padded(x, m.dim)) == m.rotated(x),
        m.rotated(cut(x, m.dim)) == m.rotated(x),
{
    assert(padded(padded(x, m.dim), m.dim) =~= padded(x, m.dim));
    assert(padded(cut(x, m.dim), m.dim) =~= padded(x, m.dim));
}

/// A flat code that was written from a code of the quantizer's bit width and
/// dimension is read back as that code.
pub proof fn law_write_then_read(q: QuantizerModel, c: CodeModel<Binary32>)
    requires
        c.bits == q.bits,
        c.dimension() == q.rotation.dim,
    ensures
        q.read(flat(c)) == Ok::<_, Error>(c),
{
    law_flat_then_parse(c);
}

/// What a quantizer encodes to bytes it reads back as the code of the vector,
/// and decodes like that code.
pub proof fn law_encode_then_read(q: QuantizerModel, x: Seq<Binary32>)
    requires
        q.rotation.well_formed(),
        encodable(q.rotation, x),
    ensures
        q.read(flat(q.code_of(x))) == Ok::<_, Error>(q.code_of(x)),
        q.decoded(q.read(flat(q.code_of(x)))->Ok_0) == q.decoded(q.code_of(x)),
{
    law_code_size(q.rotation, x, q.bits);
    law_write_then_read(q, q.code_of(x));
}

/// A flat code is read exactly where it has the size of the quantizer's codes.
pub proof fn law_read_by_size(q: QuantizerModel, b: Seq<u8>)
    requires
        q.rotation.well_formed(),
    ensures
        q.read(b) is Ok <==> b.len() == RQ_METADATA_SIZE + q.bits.bytes_for(q.rotation.dim),
        q.read(b) matches Ok(c) ==> flat(c) == b && c.dimension() == q.rotation.dim,
{
    if b.len() >= RQ_METADATA_SIZE {
        law_parse_then_flat(b, q.bits);
        let half = q.rotation.dim / 64 * 32;
        assert(q.rotation.dim == 2 * half);
        lemma_read_by_bytes(q, b, half);
    }
}

/// A flat code is read where its bytes hold the output dimension.
proof fn lemma_read_by_bytes(q: QuantizerModel, b: Seq<u8>, half: nat)
    requires
        b.len() >= RQ_METADATA_SIZE,
        q.rotation.dim == 2 * half,
    ensures
        q.read(b) is Ok <==> b.len() == RQ_METADATA_SIZE + q.bits.bytes_for(q.rotation.dim),
        q.read(b) matches Ok(c) ==> c == parsed(b, q.bits) && c.dimension() == q.rotation.dim,
{
    let c = parsed(b, q.bits);
    assert(c.codes.len() == b.len() - RQ_METADATA_SIZE);
    match q.bits {
        Bits::Four => {
            assert(q.bits.bytes_for(2 * half) == half);
            assert(c.dimension() == 2 * c.codes.len());
        },
        Bits::Eight => {},
    }
}

/// A flat code that is not read is answered with the output dimension beside the
/// dimension it has, none where it is too short for the metadata; so is a flat
/// candidate of a query.
pub proof fn law_refused_bytes(q: QuantizerModel, query: Seq<Binary32>, b: Seq<u8>)
    requires
        q.rotation.well_formed(),
        q.rotation.dim <= usize::MAX,
        encodable(q.rotation, query),
        q.read(b) is Err,
    ensures
        ({
            let actual = if b.len() < RQ_METADATA_SIZE {
                0
            } else {
                clamped(q.bits.dims_in((b.len() - RQ_METADATA_SIZE) as nat))
            };
            let e = Error::DimensionMismatch { expected: q.rotation.dim as usize, actual };
            &&& q.read(b) == Err::<CodeModel<Binary32>, _>(e)
            &&& q.distancer(query).distance_flat(b) == Err::<Binary32, _>(e)
        }),
{
    law_code_size(q.rotation, query, Bits::Eight);
    if b.len() >= RQ_METADATA_SIZE {
        let c = parsed(b, q.bits);
        assert(c.dimension() == q.bits.dims_in((b.len() - RQ_METADATA_SIZE) as nat));
    }
}

/// A candidate is as far from the query in the flat layout as it is as a code.
pub proof fn law_flat_distance(d: DistancerModel, c: CodeModel<Binary32>)
    requires
        c.bits == d.candidate_bits,
    ensures
        d.distance_flat(flat(c)) == d.distance(c),
{
    law_flat_then_parse(c);
}

/// The distancer of a query gives the distance between the query's 8-bit code
/// and the candidate; with 8-bit codes that is the distance between the codes
/// of the two vectors.
pub proof fn law_query_distance(q: QuantizerModel, query: Seq<Binary32>, c: CodeModel<Binary32>)
    ensures
        q.distancer(query).query == encoded(q.rotation, query, Bits::Eight),
        q.distancer(query).query.bits == Bits::Eight,
        q.distancer(query).distance(c) == q.distance(q.distancer(query).query, c),
        q.bits == Bits::Eight ==> q.distancer(query).distance(c) == q.distance(
            q.code_of(query),
            c,
        ),
{
}

/// Codes that a quantizer made have a distance; a code of another dimension is
/// answered with that dimension, wherever it stands.
pub proof fn law_distance_answers(
    q: QuantizerModel,
    x: Seq<Binary32>,
    y: Seq<Binary32>,
    other: CodeModel<Binary32>,
)
    requires
        q.rotation.well_formed(),
        q.rotation.applies_to(q.rotation.dim),
        q.rotation.dim <= usize::MAX,
        other.dimension() != q.rotation.dim,
    ensures
        q.distance(q.code_of(x), q.code_of(y)) is Ok,
        q.distancer(x).distance(q.code_of(y)) is Ok,
        ({
            let e = Err::<Binary32, _>(
                Error::DimensionMismatch {
                    expected: q.rotation.dim as usize,
                    actual: clamped(other.dimension()),
                },
            );
            &&& q.distance(other, q.code_of(y)) == e
            &&& q.distance(q.code_of(x), other) == e
            &&& q.distance(other, other) == e
            &&& q.distancer(x).distance(other) == e
        }),
{
    law_code_size(q.rotation, x, q.bits);
    law_code_size(q.rotation, y, q.bits);
    law_code_size(q.rotation, x, Bits::Eight);
}

/// Quantizers whose input dimensions are padded alike, with the same seed, have
/// the same rotation, so at the same bit width they give every vector the same
/// code, whatever their metrics.
pub proof fn law_same_codes(
    p: QuantizerModel,
    q: QuantizerModel,
    rounds: nat,
    seed: u64,
    x: Seq<Binary32>,
)
    requires
        padded_to_64(p.input_dim as nat) == padded_to_64(q.input_dim as nat),
        seeded(p.rotation, p.input_dim as nat, rounds, seed),
        seeded(q.rotation, q.input_dim as nat, rounds, seed),
        p.bits == q.bits,
    ensures
        p.rotation == q.rotation,
        p.code_of(x) == q.code_of(x),
        flat(p.code_of(x)) == flat(q.code_of(x)),
{
    assert(seeded(q.rotation, p.input_dim as nat, rounds, seed));
    law_seed_determines_rotation(p.rotation, q.rotation, p.input_dim as nat, rounds, seed);
}

} // verus!
