//! The quantizer: encoding vectors to compact codes and estimating distances
//! between codes.

#[allow(unused_imports)]
use crate::arith::Arithmetic;
use crate::binary32::Binary32;
use crate::code::{push_zeros, put_metadata, Bits, RqCode, RqCodeRef, RQ_METADATA_SIZE};
#[allow(unused_imports)]
use crate::code::{clamped, flat, parse_outcome, CodeModel};
use crate::encoding::{code_sum_fits, dot, encode_with_bits, prepare, quantize_into};
#[allow(unused_imports)]
use crate::encoding::{encodable, encoded, total_fits};
use crate::error::{Error, Result};
use crate::estimate::{comparable, distance_views, dot_estimate_views, Metric};
#[allow(unused_imports)]
use crate::estimate::{distance_fits, distance_outcome, estimated, inner_fits};
#[allow(unused_imports)]
use crate::laws::law_code_size;
use crate::rotation::{FastRotation, DEFAULT_FAST_ROTATION_SEED};
#[allow(unused_imports)]
use crate::rotation::{padded_to_64, seeded, RotationModel};
use vstd::prelude::*;

verus! {

/// Number of rotation rounds. Two leaves a detectable encoding bias, more than
/// three buys little.
pub const ROTATION_ROUNDS: usize = 3;

/// What a quantizer consists of.
#[verifier::ext_equal]
pub struct QuantizerModel {
    /// The declared input dimension.
    pub input_dim: usize,
    /// The bit width of stored codes.
    pub bits: Bits,
    /// The metric.
    pub metric: Metric,
    /// The rotation.
    pub rotation: RotationModel<Binary32>,
}

impl QuantizerModel {
    /// The code of a vector.
    pub open spec fn code_of(self, x: Seq<Binary32>) -> CodeModel<Binary32> {
        encoded(self.rotation, x, self.bits)
    }

    /// The approximation of the original vector that a code stands for.
    pub open spec fn decoded(self, code: CodeModel<Binary32>) -> Seq<Binary32> {
        self.rotation.unrotated(code.restored())
    }

    /// What reading a flat code gives: an error for input too short to hold
    /// the metadata, which is of dimension zero, or for a code of another
    /// dimension, the code otherwise.
    pub open spec fn read(self, b: Seq<u8>) -> core::result::Result<CodeModel<Binary32>, Error> {
        match parse_outcome(b, self.bits) {
            Err(_) => Err(
                Error::DimensionMismatch { expected: self.rotation.dim as usize, actual: 0 },
            ),
            Ok(code) => if code.dimension() == self.rotation.dim {
                Ok(code)
            } else {
                Err(
                    Error::DimensionMismatch {
                        expected: self.rotation.dim as usize,
                        actual: clamped(code.dimension()),
                    },
                )
            },
        }
    }

    /// The estimated distance between two codes.
    pub open spec fn distance(
        self,
        x: CodeModel<Binary32>,
        y: CodeModel<Binary32>,
    ) -> core::result::Result<Binary32, Error> {
        distance_outcome(self.metric, self.rotation.dim as usize, x, y)
    }

    /// The distancer of a query vector.
    pub open spec fn distancer(self, query: Seq<Binary32>) -> DistancerModel {
        DistancerModel {
            metric: self.metric,
            dim: self.rotation.dim as usize,
            candidate_bits: self.bits,
            query: encoded(self.rotation, query, Bits::Eight),
        }
    }
}

/// What a query distancer consists of.
#[verifier::ext_equal]
pub struct DistancerModel {
    /// The metric.
    pub metric: Metric,
    /// The rotated dimension.
    pub dim: usize,
    /// The bit width of the candidates.
    pub candidate_bits: Bits,
    /// The code of the query.
    pub query: CodeModel<Binary32>,
}

impl DistancerModel {
    /// The estimated distance from the query to a candidate.
    pub open spec fn distance(self, candidate: CodeModel<Binary32>) -> core::result::Result<
        Binary32,
        Error,
    > {
        distance_outcome(self.metric, self.dim, self.query, candidate)
    }

    /// The estimated distance from the query to a candidate in the flat layout.
    /// Input too short to hold the metadata is a code of dimension zero.
    pub open spec fn distance_flat(self, candidate: Seq<u8>) -> core::result::Result<
        Binary32,
        Error,
    > {
        match parse_outcome(candidate, self.candidate_bits) {
            Err(_) => Err(Error::DimensionMismatch { expected: self.dim, actual: 0 }),
            Ok(code) => self.distance(code),
        }
    }

    /// The integer dot product of the query with a candidate in the flat
    /// layout has at most 32 bits.
    pub open spec fn fits_flat(self, candidate: Seq<u8>) -> bool {
        parse_outcome(candidate, self.candidate_bits) matches Ok(code) ==> distance_fits(
            self.dim as nat,
            self.query,
            code,
        )
    }

    /// None of the first `n` candidates gives an error.
    pub open spec fn all_scored(self, candidates: Seq<&[u8]>, n: int) -> bool {
        forall|k: int| 0 <= k < n ==> self.distance_flat((#[trigger] candidates[k])@) is Ok
    }
}

/// The quantizer. Holds the rotation and the metric/bit configuration; encoding
/// and distance estimation are stateless beyond that, so it is cheap to share
/// across threads.
#[derive(Debug, PartialEq)]
pub struct RotationalQuantizer {
    input_dim: usize,
    bits: Bits,
    metric: Metric,
    rotation: FastRotation,
}

impl Clone for RotationalQuantizer {
    fn clone(&self) -> (q: RotationalQuantizer)
        ensures
            q@ == self@,
    {
        RotationalQuantizer {
            input_dim: self.input_dim,
            bits: self.bits,
            metric: self.metric,
            rotation: self.rotation.clone(),
        }
    }
}

impl View for RotationalQuantizer {
    type V = QuantizerModel;

    closed spec fn view(&self) -> QuantizerModel {
        QuantizerModel {
            input_dim: self.input_dim,
            bits: self.bits,
            metric: self.metric,
            rotation: self.rotation@,
        }
    }
}

impl RotationalQuantizer {
    /// Build a quantizer for `input_dim`-dimensional vectors using the default
    /// seed.
    pub fn new(input_dim: usize, bits: Bits, metric: Metric) -> (q: RotationalQuantizer)
        requires
            input_dim <= usize::MAX - 63,
            padded_to_64(input_dim as nat) <= u32::MAX,
        ensures
            q@.input_dim == input_dim,
            q@.bits == bits,
            q@.metric == metric,
            seeded(
                q@.rotation,
                input_dim as nat,
                ROTATION_ROUNDS as nat,
                DEFAULT_FAST_ROTATION_SEED,
            ),
            seeded(q@.rotation, input_dim as nat, 3, 0x535a_b510_5169_b1df),
            q@.rotation.well_formed(),
            q@.rotation.applies_to(q@.rotation.dim),
    {
        RotationalQuantizer::with_seed(input_dim, bits, metric, DEFAULT_FAST_ROTATION_SEED)
    }

    /// Build a quantizer with an explicit rotation seed (useful for tests or for
    /// reproducing a specific rotation).
    pub fn with_seed(input_dim: usize, bits: Bits, metric: Metric, seed: u64) -> (q:
        RotationalQuantizer)
        requires
            input_dim <= usize::MAX - 63,
            padded_to_64(input_dim as nat) <= u32::MAX,
        ensures
            q@.input_dim == input_dim,
            q@.bits == bits,
            q@.metric == metric,
            seeded(q@.rotation, input_dim as nat, ROTATION_ROUNDS as nat, seed),
            q@.rotation.rounds == 3,
            q@.rotation.well_formed(),
            q@.rotation.applies_to(q@.rotation.dim),
    {
        let rotation: FastRotation = FastRotation::new(input_dim, ROTATION_ROUNDS, seed);
        RotationalQuantizer { input_dim, bits, metric, rotation }
    }

    /// Reconstruct from a previously stored rotation (independent of the random
    /// number generator).
    pub fn from_rotation(
        input_dim: usize,
        bits: Bits,
        metric: Metric,
        rotation: FastRotation,
    ) -> (q: RotationalQuantizer)
        ensures
            q@ == (QuantizerModel { input_dim, bits, metric, rotation: rotation@ }),
    {
        RotationalQuantizer { input_dim, bits, metric, rotation }
    }

    /// The declared input dimension.
    pub fn input_dim(&self) -> (dim: usize)
        ensures
            dim == self@.input_dim,
    {
        self.input_dim
    }

    /// The rotated/output dimension. Always a multiple of 64.
    pub fn output_dim(&self) -> (dim: usize)
        ensures
            dim == self@.rotation.dim,
            dim % 64 == 0,
            dim >= 64,
    {
        self.rotation.output_dim()
    }

    /// The configured metric.
    pub fn metric(&self) -> (metric: Metric)
        ensures
            metric == self@.metric,
    {
        self.metric
    }

    /// The configured bit width.
    pub fn bits(&self) -> (bits: Bits)
        ensures
            bits == self@.bits,
    {
        self.bits
    }

    /// Access the underlying rotation (e.g. to serialize it separately).
    pub fn rotation(&self) -> (rotation: &FastRotation)
        ensures
            rotation@ == self@.rotation,
    {
        &self.rotation
    }

    /// Size in bytes of one code in the flat [`RqCode::to_bytes`] layout:
    /// metadata plus code bytes. Useful as the stride when scanning a packed
    /// column of codes.
    pub fn code_size(&self) -> (size: usize)
        requires
            RQ_METADATA_SIZE + self@.bits.bytes_for(self@.rotation.dim) <= usize::MAX,
        ensures
            size == RQ_METADATA_SIZE + self@.bits.bytes_for(self@.rotation.dim),
    {
        RQ_METADATA_SIZE + self.bits.code_bytes(self.output_dim())
    }

    /// Whether a vector can be encoded at a bit width: it is empty, or the
    /// rotation applies to vectors of the output dimension and the sum of the
    /// codes has at most 32 bits. Both hold of every vector of up to 16 million
    /// dimensions, with a rotation built from a seed.
    pub fn accepts(&self, x: &[Binary32], bits: Bits) -> (r: bool)
        ensures
            r == (encodable(self@.rotation, x@) && total_fits(self@.rotation, x@, bits)),
    {
        x.len() == 0 || self.rotation.applies(self.output_dim()) && code_sum_fits(
            &self.rotation,
            x,
            bits,
        )
    }

    /// Encode a vector into a quantized code.
    ///
    /// Inputs longer than `output_dim` are truncated; shorter inputs are
    /// zero-padded by the rotation. Degenerate inputs (empty, all-zero or
    /// without spread) produce [`RqCode::zero`].
    pub fn encode(&self, x: &[Binary32]) -> (code: RqCode)
        requires
            encodable(self@.rotation, x@),
            total_fits(self@.rotation, x@, self@.bits),
        ensures
            code@ == self@.code_of(x@),
    {
        encode_with_bits(&self.rotation, x, self.bits)
    }

    /// [`encode`](Self::encode) straight into the flat [`RqCode::to_bytes`]
    /// layout with a single allocation: the write path for storing codes.
    #[verifier::rlimit(40)]
    pub fn encode_to_bytes(&self, x: &[Binary32]) -> (out: Vec<u8>)
        requires
            encodable(self@.rotation, x@),
            total_fits(self@.rotation, x@, self@.bits),
            RQ_METADATA_SIZE + self@.bits.bytes_for(self@.rotation.dim) <= usize::MAX,
        ensures
            out@ == flat(self@.code_of(x@)),
            out@.len() == RQ_METADATA_SIZE + self@.bits.bytes_for(self@.rotation.dim),
    {
        let code_bytes: usize = self.bits.code_bytes(self.output_dim());
        proof {
            law_code_size(self@.rotation, x@, self@.bits);
        }
        let mut out: Vec<u8> = Vec::with_capacity(RQ_METADATA_SIZE + code_bytes);
        push_zeros(&mut out, RQ_METADATA_SIZE);
        let zero: Binary32 = Binary32::from_bits(0);
        let meta: (Binary32, Binary32, Binary32, Binary32) = match prepare(
            &self.rotation,
            x,
            self.bits,
        ) {
            None => {
                push_zeros(&mut out, code_bytes);
                (zero, zero, zero, zero)
            },
            Some(p) => {
                let sum: u32 = quantize_into(
                    p.rotated.as_slice(),
                    p.lower,
                    p.step,
                    self.bits,
                    &mut out,
                );
                let code_sum: Binary32 = p.step.mul(Binary32::from_u64(sum as u64));
                (p.lower, p.step, code_sum, dot(p.input, p.input))
            },
        };
        let ghost codes = self@.code_of(x@).codes;
        assert(out@.skip(16) =~= codes);
        put_metadata(&mut out, meta);
        assert(out@ =~= flat(self@.code_of(x@)));
        out
    }

    /// Parse a flat code produced by this quantizer
    /// ([`encode_to_bytes`](Self::encode_to_bytes) or [`RqCode::to_bytes`]),
    /// supplying the bit width and validating the dimension.
    pub fn code_from_bytes(&self, b: &[u8]) -> (r: Result<RqCode>)
        ensures
            r is Ok <==> self@.read(b@) is Ok,
            r matches Ok(code) ==> self@.read(b@) == Ok::<_, Error>(code@),
            r matches Err(e) ==> self@.read(b@) == Err::<CodeModel<Binary32>, _>(e),
    {
        let expected: usize = self.output_dim();
        match RqCode::from_bytes(b, self.bits) {
            Err(_) => Err(Error::DimensionMismatch { expected, actual: 0 }),
            Ok(code) => {
                if code.bits().holds(code.codes().len(), expected) {
                    Ok(code)
                } else {
                    Err(Error::DimensionMismatch { expected, actual: code.dimension() })
                }
            },
        }
    }

    /// Parse a flat code and decode it back to an approximate vector in one
    /// step: the read path matching [`encode_to_bytes`](Self::encode_to_bytes).
    pub fn decode_bytes(&self, b: &[u8]) -> (r: Result<Vec<Binary32>>)
        requires
            self@.read(b@) is Ok ==> self@.rotation.applies_to(self@.rotation.dim),
        ensures
            r is Ok <==> self@.read(b@) is Ok,
            r matches Ok(x) ==> x@ == self@.decoded(self@.read(b@)->Ok_0) && x@.len()
                == self@.rotation.dim,
            r matches Err(e) ==> self@.read(b@) == Err::<CodeModel<Binary32>, _>(e),
    {
        match self.code_from_bytes(b) {
            Err(e) => Err(e),
            Ok(code) => Ok(self.decode(&code)),
        }
    }

    /// Reconstruct the *rotated* vector from a code (the lossy inverse of
    /// quantization, before un-rotation).
    pub fn restore_rotated(&self, code: &RqCode) -> (out: Vec<Binary32>)
        ensures
            out@ == code@.restored(),
            out@.len() == code@.dimension(),
    {
        let lower: Binary32 = code.lower();
        let step: Binary32 = code.step();
        let codes: &[u8] = code.codes();
        let n: usize = codes.len();
        let mut out: Vec<Binary32> = Vec::with_capacity(code.dimension());
        match code.bits() {
            Bits::Eight => {
                let mut k: usize = 0;
                while k < n
                    invariant
                        k <= n,
                        n == codes@.len(),
                        codes@ == code@.codes,
                        code@.bits == Bits::Eight,
                        lower == code@.lower,
                        step == code@.step,
                        out@ =~= code@.restored().take(k as int),
                    decreases n - k,
                {
                    out.push(lower.add(step.mul(Binary32::from_u64(codes[k] as u64))));
                    k += 1;
                }
            },
            Bits::Four => {
                let mut k: usize = 0;
                while k < n
                    invariant
                        k <= n,
                        n == codes@.len(),
                        codes@ == code@.codes,
                        code@.bits == Bits::Four,
                        lower == code@.lower,
                        step == code@.step,
                        out@ =~= code@.restored().take(k as int),
                    decreases n - k,
                {
                    out.push(lower.add(step.mul(Binary32::from_u64((codes[k] % 16) as u64))));
                    k += 1;
                }
                let mut k: usize = 0;
                while k < n
                    invariant
                        k <= n,
                        n == codes@.len(),
                        codes@ == code@.codes,
                        code@.bits == Bits::Four,
                        lower == code@.lower,
                        step == code@.step,
                        out@ =~= code@.restored().take(n + k),
                    decreases n - k,
                {
                    out.push(lower.add(step.mul(Binary32::from_u64((codes[k] / 16) as u64))));
                    k += 1;
                }
            },
        }
        assert(out@ =~= code@.restored());
        out
    }

    /// Decode a code back to an approximation of the original (un-rotated)
    /// vector. The result has `output_dim` entries; the first `input_dim` are
    /// the meaningful ones.
    pub fn decode(&self, code: &RqCode) -> (x: Vec<Binary32>)
        requires
            self@.rotation.applies_to(code@.dimension()),
        ensures
            x@ == self@.decoded(code@),
            x@.len() == code@.dimension(),
    {
        let mut x: Vec<Binary32> = self.restore_rotated(code);
        self.rotation.unrotate_in_place(x.as_mut_slice());
        x
    }

    /// Estimate `⟨x, y⟩` from two codes. Rotation preserves inner products, so
    /// this estimates the original dot product.
    ///
    /// This is the unchecked fast path: it assumes both codes came from this
    /// quantizer; mismatched lengths silently truncate rather than error. Use
    /// [`distance`](Self::distance) when the inputs are untrusted.
    pub fn dot_estimate(&self, x: &RqCode, y: &RqCode) -> (dot: Binary32)
        requires
            inner_fits(x@, y@),
        ensures
            dot == estimated(self@.rotation.dim, x@, y@),
    {
        dot_estimate_views(self.output_dim(), x.as_view(), y.as_view())
    }

    /// Estimate the configured distance between two codes. Codes of different
    /// bit widths (e.g. an 8-bit query code against a 4-bit stored code) are
    /// supported.
    ///
    /// Returns [`Error::DimensionMismatch`] if either code's dimension differs
    /// from this quantizer's [`output_dim`](Self::output_dim), which also
    /// catches codes from a different quantizer.
    pub fn distance(&self, x: &RqCode, y: &RqCode) -> (r: Result<Binary32>)
        requires
            distance_fits(self@.rotation.dim, x@, y@),
        ensures
            r == self@.distance(x@, y@),
    {
        distance_views(self.metric, self.output_dim(), x.as_view(), y.as_view())
    }

    /// Build a reusable distancer for a query vector. Encoding the query once
    /// and scoring many candidate codes is the common search-loop pattern.
    ///
    /// The query is always encoded at **8 bits**, regardless of the index bit
    /// width. For an 8-bit index this is the symmetric scheme; for a 4-bit
    /// index it is asymmetric (fine query × coarse data), which recovers most
    /// of the accuracy a full-precision query would.
    pub fn query_distancer(&self, query: &[Binary32]) -> (distancer: QueryDistancer)
        requires
            encodable(self@.rotation, query@),
            total_fits(self@.rotation, query@, Bits::Eight),
        ensures
            distancer@ == self@.distancer(query@),
    {
        QueryDistancer {
            metric: self.metric,
            output_dim: self.output_dim(),
            candidate_bits: self.bits,
            query_code: encode_with_bits(&self.rotation, query, Bits::Eight),
        }
    }
}

/// Holds an encoded query so distances to many candidate codes share the
/// query-side precomputation. Owns everything it needs, so it can be stored,
/// sent across threads, and outlive the quantizer that built it.
pub struct QueryDistancer {
    metric: Metric,
    output_dim: usize,
    candidate_bits: Bits,
    query_code: RqCode,
}

impl View for QueryDistancer {
    type V = DistancerModel;

    closed spec fn view(&self) -> DistancerModel {
        DistancerModel {
            metric: self.metric,
            dim: self.output_dim,
            candidate_bits: self.candidate_bits,
            query: self.query_code@,
        }
    }
}

impl QueryDistancer {
    /// The encoded query (always 8-bit; see
    /// [`RotationalQuantizer::query_distancer`]).
    pub fn query_code(&self) -> (code: &RqCode)
        ensures
            code@ == self@.query,
    {
        &self.query_code
    }

    /// Whether the integer dot product of the query with a candidate, if one is
    /// taken, has at most 32 bits. This holds of all candidates of quantizers
    /// of up to 66 thousand dimensions.
    pub fn accepts(&self, candidate: &RqCode) -> (r: bool)
        ensures
            r == distance_fits(self@.dim as nat, self@.query, candidate@),
    {
        comparable(self.output_dim, self.query_code.as_view(), candidate.as_view())
    }

    /// Distance from the query to a candidate code.
    pub fn distance(&self, candidate: &RqCode) -> (r: Result<Binary32>)
        requires
            distance_fits(self@.dim as nat, self@.query, candidate@),
        ensures
            r == self@.distance(candidate@),
    {
        distance_views(
            self.metric,
            self.output_dim,
            self.query_code.as_view(),
            candidate.as_view(),
        )
    }

    /// Whether the integer dot product of the query with a candidate in the flat
    /// layout, if one is taken, has at most 32 bits. This holds of all
    /// candidates of quantizers of up to 66 thousand dimensions.
    pub fn accepts_bytes(&self, candidate: &[u8]) -> (r: bool)
        ensures
            r == self@.fits_flat(candidate@),
    {
        match RqCodeRef::from_bytes(candidate, self.candidate_bits) {
            Err(_) => true,
            Ok(view) => comparable(self.output_dim, self.query_code.as_view(), view),
        }
    }

    /// Distance from the query to a candidate stored in its flat
    /// [`to_bytes`](RqCode::to_bytes) layout, scored without allocating an
    /// owned [`RqCode`]. The candidate is parsed at the quantizer's configured
    /// bit width.
    ///
    /// Returns [`Error::DimensionMismatch`] if the candidate is too short for
    /// the metadata or its dimension differs from the quantizer's `output_dim`.
    pub fn distance_bytes(&self, candidate: &[u8]) -> (r: Result<Binary32>)
        requires
            self@.fits_flat(candidate@),
        ensures
            r == self@.distance_flat(candidate@),
    {
        match RqCodeRef::from_bytes(candidate, self.candidate_bits) {
            Err(_) => Err(Error::DimensionMismatch { expected: self.output_dim, actual: 0 }),
            Ok(view) => distance_views(
                self.metric,
                self.output_dim,
                self.query_code.as_view(),
                view,
            ),
        }
    }

    /// Score a batch of flat codes ("query this in-memory list"), failing on
    /// the first malformed candidate. Results are in input order.
    pub fn distances_bytes(&self, candidates: &[&[u8]]) -> (r: Result<Vec<Binary32>>)
        requires
            forall|k: int|
                0 <= k < candidates@.len() && self@.all_scored(candidates@, k)
                    ==> self@.fits_flat((#[trigger] candidates@[k])@),
        ensures
            r is Ok <==> self@.all_scored(candidates@, candidates@.len() as int),
            r matches Ok(out) ==> out@.len() == candidates@.len() && forall|k: int|
                0 <= k < candidates@.len() ==> self@.distance_flat(
                    (#[trigger] candidates@[k])@,
                ) == Ok::<_, Error>(out@[k]),
            r matches Err(e) ==> exists|first: int|
                {
                    &&& 0 <= first < candidates@.len()
                    &&& self@.distance_flat((#[trigger] candidates@[first])@) == Err::<
                        Binary32,
                        _,
                    >(e)
                    &&& self@.all_scored(candidates@, first)
                },
    {
        let mut out: Vec<Binary32> = Vec::with_capacity(candidates.len());
        let mut k: usize = 0;
        while k < candidates.len()
            invariant
                k <= candidates@.len(),
                forall|i: int|
                    0 <= i < candidates@.len() && self@.all_scored(candidates@, i)
                        ==> self@.fits_flat((#[trigger] candidates@[i])@),
                out@.len() == k,
                forall|i: int|
                    0 <= i < k ==> self@.distance_flat((#[trigger] candidates@[i])@) == Ok::<
                        _,
                        Error,
                    >(out@[i]),
            decreases candidates@.len() - k,
        {
            match self.distance_bytes(candidates[k]) {
                Err(e) => {
                    return Err(e);
                },
                Ok(d) => out.push(d),
            }
            k += 1;
        }
        Ok(out)
    }
}

} // verus!
