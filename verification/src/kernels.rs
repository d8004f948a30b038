//! Integer dot products of code bytes.

use crate::code::Bits;
#[allow(unused_imports)]
use crate::code::digits;
use vstd::prelude::*;

verus! {

/// Code bytes up to this number cannot overflow a 32-bit dot product: each pair
/// contributes at most `255 * 255`.
pub const SAFE_CODE_BYTES: usize = 66_051;

/// The lesser of two lengths.
pub open spec fn common(a: nat, b: nat) -> nat {
    if a < b {
        a
    } else {
        b
    }
}

/// Sum of the first `n` products of 8-bit codes.
pub open spec fn products_u8(x: Seq<u8>, y: Seq<u8>, n: nat) -> nat
    decreases n,
{
    if n == 0 {
        0
    } else {
        products_u8(x, y, (n - 1) as nat) + x[n - 1] as nat * y[n - 1] as nat
    }
}

/// Sum of the products of the nibbles of the first `n` bytes.
pub open spec fn products_u4(x: Seq<u8>, y: Seq<u8>, n: nat) -> nat
    decreases n,
{
    if n == 0 {
        0
    } else {
        let (a, b) = (x[n - 1], y[n - 1]);
        products_u4(x, y, (n - 1) as nat) + (a % 16) as nat * (b % 16) as nat + (a / 16) as nat * (b
            / 16) as nat
    }
}

/// Sum of the products of the nibbles of the first `n` packed bytes with the
/// 8-bit codes: low nibbles meet the codes from the start, high nibbles those
/// from `half` on.
pub open spec fn products_u8_u4(q: Seq<u8>, packed: Seq<u8>, half: nat, n: nat) -> nat
    decreases n,
{
    if n == 0 {
        0
    } else {
        let b = packed[n - 1];
        products_u8_u4(q, packed, half, (n - 1) as nat) + q[n - 1] as nat * (b % 16) as nat + q[half
            + n - 1] as nat * (b / 16) as nat
    }
}

/// Integer dot product of two 8-bit code strings, over their common length.
pub open spec fn inner_u8(x: Seq<u8>, y: Seq<u8>) -> nat {
    products_u8(x, y, common(x.len(), y.len()))
}

/// Integer dot product of two packed 4-bit code strings, over their common
/// length.
pub open spec fn inner_u4(x: Seq<u8>, y: Seq<u8>) -> nat {
    products_u4(x, y, common(x.len(), y.len()))
}

/// Integer dot product of 8-bit codes with packed 4-bit codes.
pub open spec fn inner_u8_u4(q: Seq<u8>, packed: Seq<u8>) -> nat {
    let half = common(packed.len(), (q.len() / 2) as nat);
    products_u8_u4(q, packed, half, half)
}

/// Integer dot product of two code strings of any widths.
pub open spec fn inner(xb: Bits, x: Seq<u8>, yb: Bits, y: Seq<u8>) -> nat {
    match (xb, yb) {
        (Bits::Eight, Bits::Eight) => inner_u8(x, y),
        (Bits::Four, Bits::Four) => inner_u4(x, y),
        (Bits::Eight, Bits::Four) => inner_u8_u4(x, y),
        (Bits::Four, Bits::Eight) => inner_u8_u4(y, x),
    }
}

/// Sum of the first `n` products of two sequences.
pub open spec fn sum_of_products(x: Seq<nat>, y: Seq<nat>, n: nat) -> nat
    decreases n,
{
    if n == 0 {
        0
    } else {
        sum_of_products(x, y, (n - 1) as nat) + x[n - 1] * y[n - 1]
    }
}

proof fn lemma_products_u8_grow(x: Seq<u8>, y: Seq<u8>, a: nat, b: nat)
    requires
        a <= b,
    ensures
        products_u8(x, y, a) <= products_u8(x, y, b),
        products_u8(x, y, b) <= 65_025 * b,
    decreases b,
{
    if b > 0 {
        let (p, q) = (x[b - 1] as nat, y[b - 1] as nat);
        assert(0 <= p * q <= 65_025) by (nonlinear_arith)
            requires
                p <= 255,
                q <= 255,
        ;
        if a < b {
            lemma_products_u8_grow(x, y, a, (b - 1) as nat);
        } else {
            lemma_products_u8_grow(x, y, (b - 1) as nat, (b - 1) as nat);
        }
    }
}

proof fn lemma_products_u4_grow(x: Seq<u8>, y: Seq<u8>, a: nat, b: nat)
    requires
        a <= b,
    ensures
        products_u4(x, y, a) <= products_u4(x, y, b) <= products_u4(x, y, a) + 450 * (b - a),
        products_u4(x, y, b) <= 450 * b,
    decreases b,
{
    if b > 0 {
        let (p, q) = (x[b - 1], y[b - 1]);
        lemma_nibble_products(p, q);
        if a < b {
            lemma_products_u4_grow(x, y, a, (b - 1) as nat);
        } else {
            lemma_products_u4_grow(x, y, (b - 1) as nat, (b - 1) as nat);
        }
    }
}

proof fn lemma_nibble_products(p: u8, q: u8)
    ensures
        0 <= (p % 16) as nat * (q % 16) as nat <= 225,
        0 <= (p / 16) as nat * (q / 16) as nat <= 225,
        0 <= p as nat * (q % 16) as nat <= 3_825,
        0 <= p as nat * (q / 16) as nat <= 3_825,
{
    let (a, b, c, d) = (p % 16, q % 16, p / 16, q / 16);
    assert(0 <= a as nat * b as nat <= 225 && 0 <= c as nat * d as nat <= 225 && 0 <= p as nat
        * b as nat <= 3_825 && 0 <= p as nat * d as nat <= 3_825) by (nonlinear_arith)
        requires
            a <= 15,
            b <= 15,
            c <= 15,
            d <= 15,
            p <= 255,
    ;
}

proof fn lemma_products_u8_u4_grow(q: Seq<u8>, packed: Seq<u8>, half: nat, a: nat, b: nat)
    requires
        a <= b,
    ensures
        products_u8_u4(q, packed, half, a) <= products_u8_u4(q, packed, half, b),
        products_u8_u4(q, packed, half, b) <= 7_650 * b,
    decreases b,
{
    if b > 0 {
        lemma_nibble_products(q[b - 1], packed[b - 1]);
        lemma_nibble_products(q[half + b - 1], packed[b - 1]);
        if a < b {
            lemma_products_u8_u4_grow(q, packed, half, a, (b - 1) as nat);
        } else {
            lemma_products_u8_u4_grow(q, packed, half, (b - 1) as nat, (b - 1) as nat);
        }
    }
}

/// Short code strings have dot products of at most 32 bits.
pub proof fn lemma_inner_fits(xb: Bits, x: Seq<u8>, yb: Bits, y: Seq<u8>)
    requires
        x.len() <= SAFE_CODE_BYTES || y.len() <= SAFE_CODE_BYTES,
    ensures
        inner(xb, x, yb, y) <= u32::MAX,
{
    let n = common(x.len(), y.len());
    lemma_products_u8_grow(x, y, n, n);
    lemma_products_u4_grow(x, y, n, n);
    let h1 = common(y.len(), (x.len() / 2) as nat);
    let h2 = common(x.len(), (y.len() / 2) as nat);
    lemma_products_u8_u4_grow(x, y, h1, h1, h1);
    lemma_products_u8_u4_grow(y, x, h2, h2, h2);
}

/// Sums of products of sequences with the same leading elements are equal.
pub proof fn lemma_sum_prefix(a: Seq<nat>, b: Seq<nat>, c: Seq<nat>, d: Seq<nat>, n: nat)
    requires
        forall|k: int| 0 <= k < n ==> a[k] == c[k],
        forall|k: int| 0 <= k < n ==> b[k] == d[k],
    ensures
        sum_of_products(a, b, n) == sum_of_products(c, d, n),
    decreases n,
{
    if n > 0 {
        lemma_sum_prefix(a, b, c, d, (n - 1) as nat);
    }
}

/// A sum of products, taken apart at `n`.
pub proof fn lemma_sum_split(a: Seq<nat>, b: Seq<nat>, n: nat, m: nat)
    requires
        n + m <= a.len(),
        n + m <= b.len(),
    ensures
        sum_of_products(a, b, n + m) == sum_of_products(a, b, n) + sum_of_products(
            a.skip(n as int),
            b.skip(n as int),
            m,
        ),
    decreases m,
{
    if m > 0 {
        lemma_sum_split(a, b, n, (m - 1) as nat);
    }
}

/// The low nibbles of all bytes.
spec fn low_nibbles(x: Seq<u8>) -> Seq<nat> {
    Seq::new(x.len(), |k: int| (x[k] % 16) as nat)
}

/// The high nibbles of all bytes.
spec fn high_nibbles(x: Seq<u8>) -> Seq<nat> {
    Seq::new(x.len(), |k: int| (x[k] / 16) as nat)
}

proof fn lemma_products_u8_sum(x: Seq<u8>, y: Seq<u8>, n: nat)
    requires
        n <= x.len(),
        n <= y.len(),
    ensures
        products_u8(x, y, n) == sum_of_products(
            digits(Bits::Eight, x),
            digits(Bits::Eight, y),
            n,
        ),
    decreases n,
{
    if n > 0 {
        lemma_products_u8_sum(x, y, (n - 1) as nat);
    }
}

proof fn lemma_products_u4_sum(x: Seq<u8>, y: Seq<u8>, n: nat)
    requires
        n <= x.len(),
        n <= y.len(),
    ensures
        products_u4(x, y, n) == sum_of_products(low_nibbles(x), low_nibbles(y), n)
            + sum_of_products(high_nibbles(x), high_nibbles(y), n),
    decreases n,
{
    if n > 0 {
        lemma_products_u4_sum(x, y, (n - 1) as nat);
    }
}

proof fn lemma_products_u8_u4_sum(q: Seq<u8>, packed: Seq<u8>, half: nat, n: nat)
    requires
        n <= half,
        2 * half <= q.len(),
        n <= packed.len(),
    ensures
        products_u8_u4(q, packed, half, n) == sum_of_products(
            digits(Bits::Eight, q),
            low_nibbles(packed),
            n,
        ) + sum_of_products(digits(Bits::Eight, q).skip(half as int), high_nibbles(packed), n),
    decreases n,
{
    if n > 0 {
        lemma_products_u8_u4_sum(q, packed, half, (n - 1) as nat);
        assert(digits(Bits::Eight, q).skip(half as int)[n - 1] == q[half + n - 1] as nat);
    }
}

proof fn lemma_inner_u8_u4_sum(q: Seq<u8>, packed: Seq<u8>)
    requires
        q.len() == 2 * packed.len(),
    ensures
        inner_u8_u4(q, packed) == sum_of_products(
            digits(Bits::Eight, q),
            digits(Bits::Four, packed),
            q.len(),
        ),
{
    let n = packed.len();
    let dq = digits(Bits::Eight, q);
    let dp = digits(Bits::Four, packed);
    lemma_products_u8_u4_sum(q, packed, n, n);
    lemma_sum_split(dq, dp, n, n);
    lemma_sum_prefix(dq, low_nibbles(packed), dq, dp, n);
    lemma_sum_prefix(
        dq.skip(n as int),
        high_nibbles(packed),
        dq.skip(n as int),
        dp.skip(n as int),
        n,
    );
}

proof fn lemma_sum_symmetric(a: Seq<nat>, b: Seq<nat>, n: nat)
    ensures
        sum_of_products(a, b, n) == sum_of_products(b, a, n),
    decreases n,
{
    if n > 0 {
        lemma_sum_symmetric(a, b, (n - 1) as nat);
        assert(a[n - 1] * b[n - 1] == b[n - 1] * a[n - 1]) by (nonlinear_arith);
    }
}

/// On codes of one dimension, every kernel computes the plain dot product of
/// the per-dimension codes, whatever the packing of either side.
pub proof fn law_kernels_agree(xb: Bits, x: Seq<u8>, yb: Bits, y: Seq<u8>)
    requires
        xb.dims_in(x.len()) == yb.dims_in(y.len()),
    ensures
        inner(xb, x, yb, y) == sum_of_products(
            digits(xb, x),
            digits(yb, y),
            xb.dims_in(x.len()),
        ),
{
    let dx = digits(xb, x);
    let dy = digits(yb, y);
    match (xb, yb) {
        (Bits::Eight, Bits::Eight) => {
            lemma_products_u8_sum(x, y, x.len());
        },
        (Bits::Four, Bits::Four) => {
            let n = x.len();
            lemma_products_u4_sum(x, y, n);
            lemma_sum_split(dx, dy, n, n);
            lemma_sum_prefix(low_nibbles(x), low_nibbles(y), dx, dy, n);
            lemma_sum_prefix(
                high_nibbles(x),
                high_nibbles(y),
                dx.skip(n as int),
                dy.skip(n as int),
                n,
            );
        },
        (Bits::Eight, Bits::Four) => {
            lemma_inner_u8_u4_sum(x, y);
        },
        (Bits::Four, Bits::Eight) => {
            lemma_inner_u8_u4_sum(y, x);
            lemma_sum_symmetric(dx, dy, y.len());
        },
    }
}

/// The elements that a dot product uses.
proof fn lemma_products_cut(x: Seq<u8>, y: Seq<u8>, a: Seq<u8>, b: Seq<u8>, n: nat)
    requires
        forall|k: int| 0 <= k < n ==> x[k] == a[k],
        forall|k: int| 0 <= k < n ==> y[k] == b[k],
    ensures
        products_u8(x, y, n) == products_u8(a, b, n),
        products_u4(x, y, n) == products_u4(a, b, n),
    decreases n,
{
    if n > 0 {
        lemma_products_cut(x, y, a, b, (n - 1) as nat);
    }
}

/// The elements that a dot product of two widths uses.
proof fn lemma_mixed_products_cut(q: Seq<u8>, p: Seq<u8>, half: nat, n: nat)
    requires
        n <= half,
        2 * half <= q.len(),
        half <= p.len(),
    ensures
        products_u8_u4(q, p, half, n) == products_u8_u4(
            q.take((2 * half) as int),
            p.take(half as int),
            half,
            n,
        ),
    decreases n,
{
    if n > 0 {
        lemma_mixed_products_cut(q, p, half, (n - 1) as nat);
    }
}

/// On codes of different dimensions, a kernel computes the dot product of what
/// both hold: bytes up to the shorter length, and of two widths as many packed
/// bytes as there are pairs of 8-bit codes for, with as many pairs.
pub proof fn law_common_length(x: Seq<u8>, y: Seq<u8>)
    ensures
        ({
            let n = if x.len() < y.len() {
                x.len()
            } else {
                y.len()
            };
            let (a, b) = (x.take(n as int), y.take(n as int));
            &&& inner(Bits::Eight, x, Bits::Eight, y) == inner(Bits::Eight, a, Bits::Eight, b)
            &&& inner(Bits::Four, x, Bits::Four, y) == inner(Bits::Four, a, Bits::Four, b)
        }),
        ({
            let h = if y.len() < x.len() / 2 {
                y.len()
            } else {
                (x.len() / 2) as nat
            };
            let (a, b) = (x.take((2 * h) as int), y.take(h as int));
            &&& inner(Bits::Eight, x, Bits::Four, y) == inner(Bits::Eight, a, Bits::Four, b)
            &&& inner(Bits::Four, y, Bits::Eight, x) == inner(Bits::Eight, a, Bits::Four, b)
        }),
{
    let n = common(x.len(), y.len());
    lemma_products_cut(x, y, x.take(n as int), y.take(n as int), n);
    let h = common(y.len(), (x.len() / 2) as nat);
    lemma_mixed_products_cut(x, y, h, h);
    assert((2 * h) / 2 == h);
}

/// On codes of one dimension, the dot product does not depend on the order of
/// its arguments.
pub proof fn law_inner_symmetric(xb: Bits, x: Seq<u8>, yb: Bits, y: Seq<u8>)
    requires
        xb.dims_in(x.len()) == yb.dims_in(y.len()),
    ensures
        inner(xb, x, yb, y) == inner(yb, y, xb, x),
{
    law_kernels_agree(xb, x, yb, y);
    law_kernels_agree(yb, y, xb, x);
    lemma_sum_symmetric(digits(xb, x), digits(yb, y), xb.dims_in(x.len()));
}

/// Integer dot product of two 8-bit code slices.
pub fn dot_u8(x: &[u8], y: &[u8]) -> (sum: u32)
    requires
        x@.len() <= SAFE_CODE_BYTES || y@.len() <= SAFE_CODE_BYTES || inner_u8(x@, y@) <= u32::MAX,
    ensures
        sum == inner_u8(x@, y@),
{
    let n: usize = if x.len() < y.len() {
        x.len()
    } else {
        y.len()
    };
    proof {
        if x@.len() <= SAFE_CODE_BYTES || y@.len() <= SAFE_CODE_BYTES {
            lemma_inner_fits(Bits::Eight, x@, Bits::Eight, y@);
        }
    }
    let mut sum: u32 = 0;
    let mut k: usize = 0;
    while k < n
        invariant
            k <= n,
            n <= x@.len(),
            n <= y@.len(),
            products_u8(x@, y@, n as nat) <= u32::MAX,
            sum == products_u8(x@, y@, k as nat),
        decreases n - k,
    {
        let (a, b) = (x[k] as u32, y[k] as u32);
        proof {
            lemma_products_u8_grow(x@, y@, (k + 1) as nat, n as nat);
            assert(0 <= a * b <= 65_025) by (nonlinear_arith)
                requires
                    a <= 255,
                    b <= 255,
            ;
        }
        sum = sum + a * b;
        k += 1;
    }
    sum
}

/// Integer dot product of two nibble-packed 4-bit code slices (split layout).
/// Each byte contributes at most `2 * 15 * 15 = 450`, so a chunk of 64 bytes
/// stays within 16 bits.
pub fn dot_u4(x: &[u8], y: &[u8]) -> (sum: u32)
    requires
        x@.len() <= SAFE_CODE_BYTES || y@.len() <= SAFE_CODE_BYTES || inner_u4(x@, y@) <= u32::MAX,
    ensures
        sum == inner_u4(x@, y@),
{
    let n: usize = if x.len() < y.len() {
        x.len()
    } else {
        y.len()
    };
    proof {
        if x@.len() <= SAFE_CODE_BYTES || y@.len() <= SAFE_CODE_BYTES {
            lemma_inner_fits(Bits::Four, x@, Bits::Four, y@);
        }
    }
    let mut sum: u32 = 0;
    let mut k: usize = 0;
    while k < n
        invariant
            k <= n,
            n <= x@.len(),
            n <= y@.len(),
            products_u4(x@, y@, n as nat) <= u32::MAX,
            sum == products_u4(x@, y@, k as nat),
        decreases n - k,
    {
        let end: usize = if n - k > 64 {
            k + 64
        } else {
            n
        };
        let start: usize = k;
        let mut chunk: u16 = 0;
        while k < end
            invariant
                start <= k <= end,
                end <= n,
                end <= start + 64,
                n <= x@.len(),
                n <= y@.len(),
                products_u4(x@, y@, n as nat) <= u32::MAX,
                sum == products_u4(x@, y@, start as nat),
                sum + chunk == products_u4(x@, y@, k as nat),
            decreases end - k,
        {
            let (a, b) = (x[k], y[k]);
            proof {
                lemma_nibble_products(a, b);
                lemma_products_u4_grow(x@, y@, start as nat, k as nat);
            }
            let lo: u8 = (a % 16) * (b % 16);
            let hi: u8 = (a / 16) * (b / 16);
            chunk = chunk + (lo as u16 + hi as u16);
            k += 1;
        }
        proof {
            lemma_products_u4_grow(x@, y@, k as nat, n as nat);
        }
        sum = sum + chunk as u32;
    }
    sum
}

/// Asymmetric integer dot product: 8-bit codes (natural dimension order)
/// against nibble-packed 4-bit codes. The split layout pairs packed byte `i`
/// with query bytes `i` and `i + half`, so only the candidate side unpacks.
pub fn dot_u8_u4(q: &[u8], packed: &[u8]) -> (sum: u32)
    requires
        q@.len() <= SAFE_CODE_BYTES || packed@.len() <= SAFE_CODE_BYTES || inner_u8_u4(q@, packed@)
            <= u32::MAX,
    ensures
        sum == inner_u8_u4(q@, packed@),
{
    let half: usize = if packed.len() < q.len() / 2 {
        packed.len()
    } else {
        q.len() / 2
    };
    proof {
        if q@.len() <= SAFE_CODE_BYTES || packed@.len() <= SAFE_CODE_BYTES {
            lemma_inner_fits(Bits::Eight, q@, Bits::Four, packed@);
        }
    }
    let mut sum: u32 = 0;
    let mut k: usize = 0;
    while k < half
        invariant
            k <= half,
            half <= packed@.len(),
            2 * half <= q@.len(),
            products_u8_u4(q@, packed@, half as nat, half as nat) <= u32::MAX,
            sum == products_u8_u4(q@, packed@, half as nat, k as nat),
        decreases half - k,
    {
        let b: u8 = packed[k];
        proof {
            lemma_products_u8_u4_grow(q@, packed@, half as nat, (k + 1) as nat, half as nat);
            lemma_nibble_products(q@[k as int], b);
            lemma_nibble_products(q@[half + k], b);
        }
        sum = sum + (q[k] as u32 * (b % 16) as u32 + q[half + k] as u32 * (b / 16) as u32);
        k += 1;
    }
    sum
}

/// The terms of an integer dot product that the first `n` bytes give.
spec fn first_terms(xb: Bits, x: Seq<u8>, yb: Bits, y: Seq<u8>, n: nat) -> nat {
    match (xb, yb) {
        (Bits::Eight, Bits::Eight) => products_u8(x, y, n),
        (Bits::Four, Bits::Four) => products_u4(x, y, n),
        (Bits::Eight, Bits::Four) => products_u8_u4(x, y, mixed_half(x, y), n),
        (Bits::Four, Bits::Eight) => products_u8_u4(y, x, mixed_half(y, x), n),
    }
}

/// The bytes that a dot product of 8-bit codes with packed 4-bit codes uses.
spec fn mixed_half(q: Seq<u8>, packed: Seq<u8>) -> nat {
    common(packed.len(), (q.len() / 2) as nat)
}

/// The number of bytes that an integer dot product walks over.
spec fn steps(xb: Bits, x: Seq<u8>, yb: Bits, y: Seq<u8>) -> nat {
    match (xb, yb) {
        (Bits::Eight, Bits::Four) => mixed_half(x, y),
        (Bits::Four, Bits::Eight) => mixed_half(y, x),
        _ => common(x.len(), y.len()),
    }
}

proof fn lemma_first_terms_grow(xb: Bits, x: Seq<u8>, yb: Bits, y: Seq<u8>, a: nat, b: nat)
    requires
        a <= b,
    ensures
        first_terms(xb, x, yb, y, a) <= first_terms(xb, x, yb, y, b),
{
    match (xb, yb) {
        (Bits::Eight, Bits::Eight) => lemma_products_u8_grow(x, y, a, b),
        (Bits::Four, Bits::Four) => lemma_products_u4_grow(x, y, a, b),
        (Bits::Eight, Bits::Four) => lemma_products_u8_u4_grow(x, y, mixed_half(x, y), a, b),
        (Bits::Four, Bits::Eight) => lemma_products_u8_u4_grow(y, x, mixed_half(y, x), a, b),
    }
}

/// The term that byte `k` of two 8-bit code slices gives.
fn term_u8(x: &[u8], y: &[u8], k: usize) -> (t: u64)
    requires
        k < x@.len(),
        k < y@.len(),
    ensures
        t == products_u8(x@, y@, (k + 1) as nat) - products_u8(x@, y@, k as nat),
        t <= 65_025,
{
    let (a, b) = (x[k] as u64, y[k] as u64);
    proof {
        assert(0 <= a * b <= 65_025) by (nonlinear_arith)
            requires
                a <= 255,
                b <= 255,
        ;
    }
    a * b
}

/// The term that byte `k` of two packed 4-bit code slices gives.
fn term_u4(x: &[u8], y: &[u8], k: usize) -> (t: u64)
    requires
        k < x@.len(),
        k < y@.len(),
    ensures
        t == products_u4(x@, y@, (k + 1) as nat) - products_u4(x@, y@, k as nat),
        t <= 65_025,
{
    let (a, b) = (x[k], y[k]);
    proof {
        lemma_nibble_products(a, b);
    }
    (a % 16) as u64 * (b % 16) as u64 + (a / 16) as u64 * (b / 16) as u64
}

/// The term that byte `k` of a packed 4-bit code slice gives with 8-bit codes.
fn term_u8_u4(q: &[u8], packed: &[u8], half: usize, k: usize) -> (t: u64)
    requires
        half == mixed_half(q@, packed@),
        k < half,
    ensures
        t == products_u8_u4(q@, packed@, half as nat, (k + 1) as nat) - products_u8_u4(
            q@,
            packed@,
            half as nat,
            k as nat,
        ),
        t <= 65_025,
{
    let b: u8 = packed[k];
    proof {
        lemma_nibble_products(q@[k as int], b);
        lemma_nibble_products(q@[half + k], b);
    }
    q[k] as u64 * (b % 16) as u64 + q[half + k] as u64 * (b / 16) as u64
}

/// The lesser of two lengths.
fn lesser_len(a: usize, b: usize) -> (r: usize)
    ensures
        r == common(a as nat, b as nat),
{
    if a < b {
        a
    } else {
        b
    }
}

/// Whether the integer dot product of two code slices has at most 32 bits.
pub fn inner_fits_u32(xb: Bits, x: &[u8], yb: Bits, y: &[u8]) -> (r: bool)
    ensures
        r == (inner(xb, x@, yb, y@) <= u32::MAX),
{
    let n: usize = match (xb, yb) {
        (Bits::Eight, Bits::Four) => lesser_len(y.len(), x.len() / 2),
        (Bits::Four, Bits::Eight) => lesser_len(x.len(), y.len() / 2),
        (Bits::Eight, Bits::Eight) => lesser_len(x.len(), y.len()),
        (Bits::Four, Bits::Four) => lesser_len(x.len(), y.len()),
    };
    assert(n == steps(xb, x@, yb, y@));
    let mut sum: u64 = 0;
    let mut k: usize = 0;
    while k < n
        invariant
            k <= n,
            n == steps(xb, x@, yb, y@),
            sum == first_terms(xb, x@, yb, y@, k as nat),
            sum <= u32::MAX,
        decreases n - k,
    {
        let t: u64 = match (xb, yb) {
            (Bits::Eight, Bits::Eight) => term_u8(x, y, k),
            (Bits::Four, Bits::Four) => term_u4(x, y, k),
            (Bits::Eight, Bits::Four) => term_u8_u4(x, y, n, k),
            (Bits::Four, Bits::Eight) => term_u8_u4(y, x, n, k),
        };
        sum = sum + t;
        k += 1;
        if sum > u32::MAX as u64 {
            proof {
                lemma_first_terms_grow(xb, x@, yb, y@, k as nat, n as nat);
            }
            return false;
        }
    }
    true
}

} // verus!
