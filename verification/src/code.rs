//! Quantized vectors and their flat byte layout.

use crate::arith::Arithmetic;
use crate::binary32::Binary32;
use crate::error::{Error, Result};
use vstd::prelude::*;
use vstd::slice::{slice_subrange, slice_to_vec};

verus! {

/// Number of metadata bytes in the flat layout: four single precision numbers.
pub const RQ_METADATA_SIZE: usize = 16;

/// Bit width of the per-dimension codes.
///
/// [`Bits::Eight`] stores one byte per rotated dimension. [`Bits::Four`] packs
/// two dimensions per byte (see [`RqCode`] for the layout).
#[derive(Clone, Copy, Debug, PartialEq, Eq, Structural)]
pub enum Bits {
    /// 4-bit codes, nibble-packed two per byte.
    Four,
    /// 8-bit codes (one byte per dimension).
    Eight,
}

/// `n`, or the greatest `usize` where `n` is greater.
pub open spec fn clamped(n: nat) -> usize {
    if n <= usize::MAX {
        n as usize
    } else {
        usize::MAX
    }
}

impl Bits {
    /// Numeric width.
    pub open spec fn width(self) -> nat {
        match self {
            Bits::Four => 4,
            Bits::Eight => 8,
        }
    }

    /// Largest code, `2^width - 1`.
    pub open spec fn top(self) -> nat {
        match self {
            Bits::Four => 15,
            Bits::Eight => 255,
        }
    }

    /// Bytes that hold the codes of `dim` dimensions.
    pub open spec fn bytes_for(self, dim: nat) -> nat {
        match self {
            Bits::Four => dim / 2,
            Bits::Eight => dim,
        }
    }

    /// Dimensions whose codes `bytes` bytes hold.
    pub open spec fn dims_in(self, bytes: nat) -> nat {
        match self {
            Bits::Four => bytes * 2,
            Bits::Eight => bytes,
        }
    }

    /// Numeric width.
    pub fn as_u32(self) -> (r: u32)
        ensures
            r == self.width(),
    {
        match self {
            Bits::Four => 4,
            Bits::Eight => 8,
        }
    }

    /// Largest representable code, `2^bits - 1`.
    pub fn max_code(self) -> (r: Binary32)
        ensures
            r == Binary32::of_nat(self.top()),
    {
        match self {
            Bits::Four => Binary32::from_u64(15),
            Bits::Eight => Binary32::from_u64(255),
        }
    }

    /// Number of code bytes used to store `dim` per-dimension codes:
    /// nibble-packed for 4-bit, one byte per dimension for 8-bit.
    pub fn code_bytes(self, dim: usize) -> (r: usize)
        ensures
            r == self.bytes_for(dim as nat),
    {
        match self {
            Bits::Four => dim / 2,
            Bits::Eight => dim,
        }
    }

    /// Number of dimensions represented by `bytes` code bytes (the inverse of
    /// [`code_bytes`](Self::code_bytes)), clamped to the range of `usize`.
    pub fn dims(self, bytes: usize) -> (r: usize)
        ensures
            r == clamped(self.dims_in(bytes as nat)),
    {
        match self {
            Bits::Four => if bytes > usize::MAX / 2 {
                usize::MAX
            } else {
                bytes * 2
            },
            Bits::Eight => bytes,
        }
    }

    /// Whether `bytes` code bytes hold exactly `dim` dimensions.
    pub fn holds(self, bytes: usize, dim: usize) -> (r: bool)
        ensures
            r == (self.dims_in(bytes as nat) == dim),
    {
        match self {
            Bits::Four => dim % 2 == 0 && bytes == dim / 2,
            Bits::Eight => bytes == dim,
        }
    }

    /// Canonical file extension for codes stored in the flat
    /// [`RqCode::to_bytes`] layout. The layout is headerless, so the bit width
    /// has to travel out-of-band, and the extension is the conventional place
    /// to put it.
    pub fn extension(self) -> (r: &'static str)
        ensures
            r@ == (match self {
                Bits::Four => "rq4"@,
                Bits::Eight => "rq8"@,
            }),
    {
        match self {
            Bits::Four => "rq4",
            Bits::Eight => "rq8",
        }
    }
}

/// What a quantized vector consists of.
#[verifier::ext_equal]
pub struct CodeModel<A> {
    /// Quantization offset.
    pub lower: A,
    /// Quantization step size.
    pub step: A,
    /// The step times the sum of all codes.
    pub code_sum: A,
    /// Squared norm of the original vector.
    pub norm2: A,
    /// Bit width of the codes.
    pub bits: Bits,
    /// The code bytes.
    pub codes: Seq<u8>,
}

/// The per-dimension codes that code bytes hold. With 4 bits, byte `i` of `n`
/// holds dimension `i` in its low nibble and dimension `i + n` in its high one.
pub open spec fn digits(bits: Bits, codes: Seq<u8>) -> Seq<nat> {
    match bits {
        Bits::Four => Seq::new(
            codes.len() * 2,
            |k: int|
                if k < codes.len() {
                    (codes[k] % 16) as nat
                } else {
                    (codes[k - codes.len()] / 16) as nat
                },
        ),
        Bits::Eight => Seq::new(codes.len(), |k: int| codes[k] as nat),
    }
}

impl<A: Arithmetic> CodeModel<A> {
    /// Rotated dimension.
    pub open spec fn dimension(self) -> nat {
        self.bits.dims_in(self.codes.len())
    }

    /// The rotated vector that the code stands for.
    pub open spec fn restored(self) -> Seq<A> {
        let d = digits(self.bits, self.codes);
        Seq::new(d.len(), |k: int| self.lower.plus(self.step.times(A::of_nat(d[k]))))
    }
}

/// The code of the zero vector.
pub open spec fn zero_code(dim: nat, bits: Bits) -> CodeModel<Binary32> {
    let zero = Binary32 { bits: 0 };
    CodeModel {
        lower: zero,
        step: zero,
        code_sum: zero,
        norm2: zero,
        bits,
        codes: Seq::new(bits.bytes_for(dim), |k: int| 0u8),
    }
}

/// The four bytes of a word, least significant first.
pub open spec fn le_bytes(w: u32) -> Seq<u8> {
    seq![
        (w % 256) as u8,
        (w / 256 % 256) as u8,
        (w / 65_536 % 256) as u8,
        (w / 16_777_216) as u8,
    ]
}

/// The word whose bytes start at `at`, least significant first.
#[verifier::opaque]
pub open spec fn le_word(b: Seq<u8>, at: int) -> u32 {
    (b[at] + 256 * b[at + 1] + 65_536 * b[at + 2] + 16_777_216 * b[at + 3]) as u32
}

/// The flat layout: offset, step, code sum and squared norm as little-endian
/// words, then the code bytes.
pub open spec fn flat(c: CodeModel<Binary32>) -> Seq<u8> {
    le_bytes(c.lower.bits) + le_bytes(c.step.bits) + le_bytes(c.code_sum.bits) + le_bytes(
        c.norm2.bits,
    ) + c.codes
}

/// The code in the flat layout of at least 16 bytes.
pub open spec fn parsed(b: Seq<u8>, bits: Bits) -> CodeModel<Binary32> {
    CodeModel {
        lower: Binary32 { bits: le_word(b, 0) },
        step: Binary32 { bits: le_word(b, 4) },
        code_sum: Binary32 { bits: le_word(b, 8) },
        norm2: Binary32 { bits: le_word(b, 12) },
        bits,
        codes: b.subrange(16, b.len() as int),
    }
}

/// What parsing a flat code gives: an error for input too short to hold the
/// metadata, the code otherwise.
pub open spec fn parse_outcome(b: Seq<u8>, bits: Bits) -> core::result::Result<
    CodeModel<Binary32>,
    Error,
> {
    if b.len() < RQ_METADATA_SIZE {
        Err(Error::DimensionMismatch { expected: RQ_METADATA_SIZE, actual: b.len() as usize })
    } else {
        Ok(parsed(b, bits))
    }
}

/// Reading the bytes of a word gives the word.
pub proof fn lemma_le_bytes_word(b: Seq<u8>, at: int, w: u32)
    requires
        0 <= at,
        at + 4 <= b.len(),
        b.subrange(at, at + 4) == le_bytes(w),
    ensures
        le_word(b, at) == w,
{
    reveal(le_word);
    let s = b.subrange(at, at + 4);
    assert(s[0] == b[at] && s[1] == b[at + 1] && s[2] == b[at + 2] && s[3] == b[at + 3]);
}

/// The bytes of the word that is made of four bytes are those bytes.
proof fn lemma_word_parts(a: u8, b: u8, c: u8, d: u8, w: int)
    requires
        w == a + 256 * b + 65_536 * c + 16_777_216 * d,
    ensures
        w % 256 == a,
        w / 256 % 256 == b,
        w / 65_536 % 256 == c,
        w / 16_777_216 == d,
{
    let w3 = d as int;
    let w2 = c + 256 * w3;
    let w1 = b + 256 * w2;
    assert(w == a + 256 * w1);
    assert(w / 256 == w1);
    assert(w / 65_536 == w2);
    assert(w / 16_777_216 == w3);
}

/// Reading a word and writing its bytes gives the bytes.
pub proof fn lemma_le_word_bytes(b: Seq<u8>, at: int)
    requires
        0 <= at,
        at + 4 <= b.len(),
    ensures
        le_bytes(le_word(b, at)) == b.subrange(at, at + 4),
{
    reveal(le_word);
    let w = b[at] + 256 * b[at + 1] + 65_536 * b[at + 2] + 16_777_216 * b[at + 3];
    lemma_word_parts(b[at], b[at + 1], b[at + 2], b[at + 3], w);
    assert(w == le_word(b, at));
    assert(le_bytes(le_word(b, at)) =~= b.subrange(at, at + 4));
}

/// Writing a code in the flat layout and parsing it at its bit width gives the
/// code back.
pub proof fn law_flat_then_parse(c: CodeModel<Binary32>)
    ensures
        flat(c).len() == RQ_METADATA_SIZE + c.codes.len(),
        parse_outcome(flat(c), c.bits) == Ok::<_, Error>(c),
{
    let b = flat(c);
    assert(b.subrange(0, 4) =~= le_bytes(c.lower.bits));
    assert(b.subrange(4, 8) =~= le_bytes(c.step.bits));
    assert(b.subrange(8, 12) =~= le_bytes(c.code_sum.bits));
    assert(b.subrange(12, 16) =~= le_bytes(c.norm2.bits));
    lemma_le_bytes_word(b, 0, c.lower.bits);
    lemma_le_bytes_word(b, 4, c.step.bits);
    lemma_le_bytes_word(b, 8, c.code_sum.bits);
    lemma_le_bytes_word(b, 12, c.norm2.bits);
    assert(b.subrange(16, b.len() as int) =~= c.codes);
    assert(parsed(b, c.bits) =~= c);
}

/// Parsing a flat code at any bit width and writing it again gives the bytes
/// back.
pub proof fn law_parse_then_flat(b: Seq<u8>, bits: Bits)
    requires
        b.len() >= RQ_METADATA_SIZE,
    ensures
        flat(parsed(b, bits)) == b,
{
    lemma_le_word_bytes(b, 0);
    lemma_le_word_bytes(b, 4);
    lemma_le_word_bytes(b, 8);
    lemma_le_word_bytes(b, 12);
    assert(flat(parsed(b, bits)) =~= b);
}

/// `code_bytes` and `dims` undo each other on the dimensions that fill whole
/// bytes.
pub proof fn law_bytes_and_dims(bits: Bits, dim: nat, bytes: nat)
    ensures
        dim % 2 == 0 ==> bits.dims_in(bits.bytes_for(dim)) == dim,
        bits.bytes_for(bits.dims_in(bytes)) == bytes,
{
}

/// The flat layout, byte by byte: the bits of offset, step, code sum and squared
/// norm in four bytes each, the least significant byte first, then the code
/// bytes in order.
pub proof fn law_flat_layout(c: CodeModel<Binary32>)
    ensures
        flat(c).len() == 16 + c.codes.len(),
        ({
            let b = flat(c);
            &&& b[0] + 256 * b[1] + 65_536 * b[2] + 16_777_216 * b[3] == c.lower.bits
            &&& b[4] + 256 * b[5] + 65_536 * b[6] + 16_777_216 * b[7] == c.step.bits
            &&& b[8] + 256 * b[9] + 65_536 * b[10] + 16_777_216 * b[11] == c.code_sum.bits
            &&& b[12] + 256 * b[13] + 65_536 * b[14] + 16_777_216 * b[15] == c.norm2.bits
        }),
        forall|k: int| 0 <= k < c.codes.len() ==> flat(c)[16 + k] == #[trigger] c.codes[k],
{
    let b = flat(c);
    lemma_word_value(c.lower.bits);
    lemma_word_value(c.step.bits);
    lemma_word_value(c.code_sum.bits);
    lemma_word_value(c.norm2.bits);
    assert(b.subrange(0, 4) =~= le_bytes(c.lower.bits));
    assert(b.subrange(4, 8) =~= le_bytes(c.step.bits));
    assert(b.subrange(8, 12) =~= le_bytes(c.code_sum.bits));
    assert(b.subrange(12, 16) =~= le_bytes(c.norm2.bits));
    lemma_four_bytes(b, 0);
    lemma_four_bytes(b, 4);
    lemma_four_bytes(b, 8);
    lemma_four_bytes(b, 12);
    assert forall|k: int| 0 <= k < c.codes.len() implies b[16 + k] == #[trigger] c.codes[k] by {}
}

/// The bytes of a part of a sequence.
proof fn lemma_four_bytes(b: Seq<u8>, at: int)
    requires
        0 <= at,
        at + 4 <= b.len(),
    ensures
        ({
            let s = b.subrange(at, at + 4);
            &&& s[0] == b[at]
            &&& s[1] == b[at + 1]
            &&& s[2] == b[at + 2]
            &&& s[3] == b[at + 3]
        }),
{
}

/// A word is the sum of its bytes, each times its place value.
proof fn lemma_word_value(w: u32)
    ensures
        ({
            let b = le_bytes(w);
            b[0] + 256 * b[1] + 65_536 * b[2] + 16_777_216 * b[3] == w
        }),
{
    let w1 = w / 256;
    let w2 = w1 / 256;
    let w3 = w2 / 256;
    assert(w / 65_536 == w2 && w / 16_777_216 == w3);
    assert(w == 256 * w1 + w % 256 && w1 == 256 * w2 + w1 % 256 && w2 == 256 * w3 + w2 % 256);
}

/// What is parsed of at least 16 bytes at a bit width has that width, the
/// metadata that the first 16 bytes hold, and the other bytes as code bytes;
/// less than that is answered with both numbers of bytes.
pub proof fn law_parsed_layout(b: Seq<u8>, bits: Bits)
    requires
        b.len() <= usize::MAX,
    ensures
        b.len() >= 16 ==> (parse_outcome(b, bits) matches Ok(c) && {
            &&& c.bits == bits
            &&& c.lower.bits == b[0] + 256 * b[1] + 65_536 * b[2] + 16_777_216 * b[3]
            &&& c.step.bits == b[4] + 256 * b[5] + 65_536 * b[6] + 16_777_216 * b[7]
            &&& c.code_sum.bits == b[8] + 256 * b[9] + 65_536 * b[10] + 16_777_216 * b[11]
            &&& c.norm2.bits == b[12] + 256 * b[13] + 65_536 * b[14] + 16_777_216 * b[15]
            &&& c.codes.len() == b.len() - 16
            &&& forall|k: int| 0 <= k < c.codes.len() ==> #[trigger] c.codes[k] == b[16 + k]
        }),
        b.len() < 16 ==> parse_outcome(b, bits) == Err::<CodeModel<Binary32>, _>(
            Error::DimensionMismatch { expected: 16, actual: b.len() as usize },
        ),
{
    if b.len() >= 16 {
        reveal(le_word);
        let c = parsed(b, bits);
        assert(c.bits == bits);
    }
}

/// The widths are 4 and 8 bits: codes range from zero to `2^width - 1`, and as
/// many are in a byte as fit.
pub proof fn law_widths(bits: Bits, dim: nat)
    ensures
        Bits::Four.width() == 4 && Bits::Four.top() == 15,
        Bits::Eight.width() == 8 && Bits::Eight.top() == 255,
        dim % 2 == 0 ==> 8 * bits.bytes_for(dim) == bits.width() * dim,
        bits.width() * bits.dims_in(dim) == 8 * dim,
{
}

/// The zero code: all metadata are positive zero, and so are all code bytes, as
/// many as the dimension needs.
pub proof fn law_zero_code(dim: nat, bits: Bits)
    ensures
        zero_code(dim, bits).bits == bits,
        zero_code(dim, bits).lower.bits == 0,
        zero_code(dim, bits).step.bits == 0,
        zero_code(dim, bits).code_sum.bits == 0,
        zero_code(dim, bits).norm2.bits == 0,
        bits is Eight ==> zero_code(dim, bits).codes.len() == dim,
        bits is Four && dim % 2 == 0 ==> 2 * zero_code(dim, bits).codes.len() == dim,
        forall|k: int|
            0 <= k < zero_code(dim, bits).codes.len() ==> #[trigger] zero_code(dim, bits).codes[k]
                == 0,
{
}

/// Appends the bytes of a word, least significant first.
pub(crate) fn push_word(out: &mut Vec<u8>, w: u32)
    ensures
        final(out)@ == old(out)@ + le_bytes(w),
{
    let ghost before = out@;
    out.push((w % 256) as u8);
    out.push((w / 256 % 256) as u8);
    out.push((w / 65_536 % 256) as u8);
    out.push((w / 16_777_216) as u8);
    assert(out@ =~= before + le_bytes(w));
}

/// Overwrites the four bytes from `at` with those of a word, least significant
/// first.
fn put_word(out: &mut Vec<u8>, at: usize, w: u32)
    requires
        at + 4 <= old(out)@.len(),
        at <= usize::MAX - 4,
    ensures
        final(out)@ == old(out)@.take(at as int) + le_bytes(w) + old(out)@.skip(at + 4),
{
    let ghost before = out@;
    out[at] = (w % 256) as u8;
    out[at + 1] = (w / 256 % 256) as u8;
    out[at + 2] = (w / 65_536 % 256) as u8;
    out[at + 3] = (w / 16_777_216) as u8;
    assert(out@ =~= before.take(at as int) + le_bytes(w) + before.skip(at + 4));
}

/// Overwrites the first sixteen bytes with those of four words.
pub(crate) fn put_metadata(out: &mut Vec<u8>, w: (Binary32, Binary32, Binary32, Binary32))
    requires
        old(out)@.len() >= RQ_METADATA_SIZE,
    ensures
        final(out)@ == le_bytes(w.0.bits) + le_bytes(w.1.bits) + le_bytes(w.2.bits) + le_bytes(
            w.3.bits,
        ) + old(out)@.skip(RQ_METADATA_SIZE as int),
{
    let ghost rest = out@.skip(16);
    put_word(out, 0, w.0.bits);
    assert(out@ =~= le_bytes(w.0.bits) + out@.subrange(4, 16) + rest);
    put_word(out, 4, w.1.bits);
    assert(out@ =~= le_bytes(w.0.bits) + le_bytes(w.1.bits) + out@.subrange(8, 16) + rest);
    put_word(out, 8, w.2.bits);
    assert(out@ =~= le_bytes(w.0.bits) + le_bytes(w.1.bits) + le_bytes(w.2.bits) + out@.subrange(
        12,
        16,
    ) + rest);
    put_word(out, 12, w.3.bits);
    assert(out@ =~= le_bytes(w.0.bits) + le_bytes(w.1.bits) + le_bytes(w.2.bits) + le_bytes(
        w.3.bits,
    ) + rest);
}

/// The word whose bytes start at `at`, least significant first.
fn read_word(b: &[u8], at: usize) -> (w: u32)
    requires
        at + 4 <= b@.len(),
    ensures
        w == le_word(b@, at as int),
{
    proof {
        reveal(le_word);
    }
    b[at] as u32 + 256 * (b[at + 1] as u32) + 65_536 * (b[at + 2] as u32) + 16_777_216 * (b[at
        + 3] as u32)
}

/// Appends all bytes of a slice.
fn push_all(out: &mut Vec<u8>, b: &[u8])
    ensures
        final(out)@ == old(out)@ + b@,
{
    let ghost before = out@;
    let mut k: usize = 0;
    while k < b.len()
        invariant
            k <= b@.len(),
            out@ =~= before + b@.take(k as int),
        decreases b@.len() - k,
    {
        out.push(b[k]);
        k += 1;
    }
    assert(b@.take(k as int) =~= b@);
}

/// `n` zero bytes appended.
pub(crate) fn push_zeros(out: &mut Vec<u8>, n: usize)
    ensures
        final(out)@ == old(out)@ + Seq::new(n as nat, |k: int| 0u8),
{
    let ghost before = out@;
    let mut k: usize = 0;
    while k < n
        invariant
            k <= n,
            out@ =~= before + Seq::new(k as nat, |l: int| 0u8),
        decreases n - k,
    {
        out.push(0);
        k += 1;
    }
}

/// A quantized vector.
///
/// Four single precision metadata numbers plus the code bytes. The code sum
/// holds `step * Σ codes` and the squared norm `⟨x, x⟩`; both are precomputed
/// at encode time, so distance estimation is a handful of multiplies plus one
/// integer dot product.
///
/// 8-bit codes store one byte per rotated dimension, in dimension order.
/// 4-bit codes are nibble-packed in a **split layout**: with `half = dim / 2`,
/// byte `i` holds dimension `i` in its low nibble and dimension `i + half` in
/// its high nibble, so both nibble streams unpack with uniform masks and no
/// interleaving.
#[derive(Debug, PartialEq)]
pub struct RqCode {
    lower: Binary32,
    step: Binary32,
    code_sum: Binary32,
    norm2: Binary32,
    bits: Bits,
    codes: Vec<u8>,
}

impl Clone for RqCode {
    fn clone(&self) -> (code: RqCode)
        ensures
            code@ == self@,
    {
        let codes: Vec<u8> = self.codes.clone();
        assert(codes@ =~= self.codes@);
        RqCode {
            lower: self.lower,
            step: self.step,
            code_sum: self.code_sum,
            norm2: self.norm2,
            bits: self.bits,
            codes,
        }
    }
}

impl View for RqCode {
    type V = CodeModel<Binary32>;

    closed spec fn view(&self) -> CodeModel<Binary32> {
        CodeModel {
            lower: self.lower,
            step: self.step,
            code_sum: self.code_sum,
            norm2: self.norm2,
            bits: self.bits,
            codes: self.codes@,
        }
    }
}

impl RqCode {
    /// A code from previously stored parts.
    pub fn from_parts(
        lower: Binary32,
        step: Binary32,
        code_sum: Binary32,
        norm2: Binary32,
        bits: Bits,
        codes: Vec<u8>,
    ) -> (code: RqCode)
        ensures
            code@ == (CodeModel { lower, step, code_sum, norm2, bits, codes: codes@ }),
    {
        RqCode { lower, step, code_sum, norm2, bits, codes }
    }

    /// The code representing the zero vector (also the code of degenerate
    /// input such as an empty or all-zero vector). `dim` is the rotated
    /// dimension; the stored byte count follows from `bits`.
    pub fn zero(dim: usize, bits: Bits) -> (code: RqCode)
        ensures
            code@ == zero_code(dim as nat, bits),
    {
        let zero: Binary32 = Binary32::from_bits(0);
        let mut codes: Vec<u8> = Vec::new();
        push_zeros(&mut codes, bits.code_bytes(dim));
        proof {
            assert(codes@ =~= Seq::new(bits.bytes_for(dim as nat), |k: int| 0u8));
        }
        RqCode { lower: zero, step: zero, code_sum: zero, norm2: zero, bits, codes }
    }

    /// Rotated dimension of this code, clamped to the range of `usize`.
    pub fn dimension(&self) -> (dim: usize)
        ensures
            dim == clamped(self@.dimension()),
    {
        self.bits.dims(self.codes.len())
    }

    /// Bit width of the stored codes.
    pub fn bits(&self) -> (bits: Bits)
        ensures
            bits == self@.bits,
    {
        self.bits
    }

    /// Code bytes: one per dimension for 8-bit, nibble-packed (split layout,
    /// see the type docs) for 4-bit.
    pub fn codes(&self) -> (codes: &[u8])
        ensures
            codes@ == self@.codes,
    {
        self.codes.as_slice()
    }

    /// Quantization offset (the minimum rotated value).
    pub fn lower(&self) -> (lower: Binary32)
        ensures
            lower == self@.lower,
    {
        self.lower
    }

    /// Quantization step size.
    pub fn step(&self) -> (step: Binary32)
        ensures
            step == self@.step,
    {
        self.step
    }

    /// The step times the sum of all codes.
    pub fn code_sum(&self) -> (code_sum: Binary32)
        ensures
            code_sum == self@.code_sum,
    {
        self.code_sum
    }

    /// `⟨x, x⟩` of the original (pre-rotation) vector.
    pub fn norm2(&self) -> (norm2: Binary32)
        ensures
            norm2 == self@.norm2,
    {
        self.norm2
    }

    /// Serialize to flat bytes: four little-endian metadata words, then the
    /// code bytes.
    ///
    /// The layout is headerless: it does not record the bit width, so readers
    /// must know it out-of-band (conventionally via the [`Bits::extension`]
    /// file extension).
    pub fn to_bytes(&self) -> (out: Vec<u8>)
        ensures
            out@ == flat(self@),
    {
        let mut out: Vec<u8> = Vec::new();
        push_word(&mut out, self.lower.bits);
        push_word(&mut out, self.step.bits);
        push_word(&mut out, self.code_sum.bits);
        push_word(&mut out, self.norm2.bits);
        push_all(&mut out, self.codes.as_slice());
        assert(out@ =~= flat(self@));
        out
    }

    /// Inverse of [`to_bytes`](Self::to_bytes). The caller supplies the bit
    /// width the bytes were written with; the layout cannot self-describe it.
    pub fn from_bytes(b: &[u8], bits: Bits) -> (r: Result<RqCode>)
        ensures
            r is Ok <==> b@.len() >= RQ_METADATA_SIZE,
            r matches Ok(code) ==> parse_outcome(b@, bits) == Ok::<_, Error>(code@),
            r matches Err(e) ==> parse_outcome(b@, bits) == Err::<CodeModel<Binary32>, _>(e),
    {
        match RqCodeRef::from_bytes(b, bits) {
            Err(e) => Err(e),
            Ok(view) => Ok(
                RqCode {
                    lower: view.lower,
                    step: view.step,
                    code_sum: view.code_sum,
                    norm2: view.norm2,
                    bits,
                    codes: slice_to_vec(view.codes),
                },
            ),
        }
    }

    /// Borrow this code as a zero-copy [`RqCodeRef`].
    pub fn as_view(&self) -> (view: RqCodeRef<'_>)
        ensures
            view@ == self@,
    {
        RqCodeRef {
            lower: self.lower,
            step: self.step,
            code_sum: self.code_sum,
            norm2: self.norm2,
            bits: self.bits,
            codes: self.codes.as_slice(),
        }
    }
}

/// A borrowed, zero-copy view over a code in its flat
/// [`to_bytes`](RqCode::to_bytes) layout: the four metadata words are parsed
/// while the code bytes are borrowed in place, so a candidate stored as raw
/// bytes can be scored without building an owned [`RqCode`].
#[derive(Clone, Copy, Debug)]
pub struct RqCodeRef<'a> {
    lower: Binary32,
    step: Binary32,
    code_sum: Binary32,
    norm2: Binary32,
    bits: Bits,
    codes: &'a [u8],
}

impl<'a> View for RqCodeRef<'a> {
    type V = CodeModel<Binary32>;

    closed spec fn view(&self) -> CodeModel<Binary32> {
        CodeModel {
            lower: self.lower,
            step: self.step,
            code_sum: self.code_sum,
            norm2: self.norm2,
            bits: self.bits,
            codes: self.codes@,
        }
    }
}

impl<'a> RqCodeRef<'a> {
    /// Parse a view from the flat little-endian layout without copying the
    /// code bytes. The caller supplies the bit width (the layout is
    /// headerless). Returns [`Error::DimensionMismatch`] if `b` is too short
    /// to hold the metadata.
    pub fn from_bytes(b: &'a [u8], bits: Bits) -> (r: Result<RqCodeRef<'a>>)
        ensures
            r is Ok <==> b@.len() >= RQ_METADATA_SIZE,
            r matches Ok(code) ==> parse_outcome(b@, bits) == Ok::<_, Error>(code@),
            r matches Err(e) ==> parse_outcome(b@, bits) == Err::<CodeModel<Binary32>, _>(e),
    {
        if b.len() < RQ_METADATA_SIZE {
            return Err(
                Error::DimensionMismatch { expected: RQ_METADATA_SIZE, actual: b.len() },
            );
        }
        Ok(
            RqCodeRef {
                lower: Binary32::from_bits(read_word(b, 0)),
                step: Binary32::from_bits(read_word(b, 4)),
                code_sum: Binary32::from_bits(read_word(b, 8)),
                norm2: Binary32::from_bits(read_word(b, 12)),
                bits,
                codes: slice_subrange(b, RQ_METADATA_SIZE, b.len()),
            },
        )
    }

    /// Rotated dimension of this code, clamped to the range of `usize`.
    pub fn dimension(&self) -> (dim: usize)
        ensures
            dim == clamped(self@.dimension()),
    {
        self.bits.dims(self.codes.len())
    }

    /// Bit width of the codes.
    pub fn bits(&self) -> (bits: Bits)
        ensures
            bits == self@.bits,
    {
        self.bits
    }

    /// Code bytes (nibble-packed for 4-bit; see [`RqCode`]).
    pub fn codes(&self) -> (codes: &'a [u8])
        ensures
            codes@ == self@.codes,
    {
        self.codes
    }

    /// Quantization offset (the minimum rotated value).
    pub fn lower(&self) -> (lower: Binary32)
        ensures
            lower == self@.lower,
    {
        self.lower
    }

    /// Quantization step size.
    pub fn step(&self) -> (step: Binary32)
        ensures
            step == self@.step,
    {
        self.step
    }

    /// The step times the sum of all codes.
    pub fn code_sum(&self) -> (code_sum: Binary32)
        ensures
            code_sum == self@.code_sum,
    {
        self.code_sum
    }

    /// `⟨x, x⟩` of the original (pre-rotation) vector.
    pub fn norm2(&self) -> (norm2: Binary32)
        ensures
            norm2 == self@.norm2,
    {
        self.norm2
    }
}

} // verus!
