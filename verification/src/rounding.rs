//! Rounding of exact rational values to the binary32 format.
//!
//! Magnitudes are measured in units of the smallest positive binary32 number,
//! `2^-149`, so that every finite binary32 magnitude is a natural number. The
//! *body* of a binary32 number is its bit pattern without the sign bit; bodies
//! are ordered like the magnitudes they stand for.

use vstd::arithmetic::div_mod::{
    lemma_fundamental_div_mod, lemma_fundamental_div_mod_converse, lemma_mod_bound,
};
use vstd::arithmetic::power2::{
    lemma2_to64, lemma2_to64_rest, lemma_pow2_adds, lemma_pow2_pos, lemma_pow2_strictly_increases,
    lemma_pow2_unfold, pow2,
};
use vstd::bits::{lemma_u64_shl_is_mul, lemma_u64_shr_is_div};
use vstd::prelude::*;
use vstd::std_specs::bits::axiom_u64_leading_zeros;

verus! {

/// The body of infinity: all exponent bits set, no fraction bits.
pub const INFINITY_BODY: u32 = 0x7f80_0000;

/// `n / d` rounded to the nearest integer, ties to the even one.
pub open spec fn nearest(n: nat, d: nat) -> nat {
    let f = n / d;
    let r = n % d;
    if 2 * r < d || (2 * r == d && f % 2 == 0) {
        f
    } else {
        f + 1
    }
}

/// The body of the binary32 number nearest to `num / den` units, were the
/// exponent unbounded. A value below `2^24` units is rounded to a whole number
/// of units, which is its own body; each further doubling of the value doubles
/// the spacing of the format and moves the body up by one exponent step.
pub open spec fn unbounded_body(num: nat, den: nat) -> nat
    decreases num - den,
{
    if den == 0 || num < den * 0x100_0000 {
        nearest(num, den)
    } else {
        0x80_0000 + unbounded_body(num, 2 * den)
    }
}

/// The body of the binary32 number nearest to `num / den` units, ties to even;
/// infinity where that value is too large for the format.
pub open spec fn round_body(num: nat, den: nat) -> nat {
    let b = unbounded_body(num, den);
    if b < INFINITY_BODY {
        b
    } else {
        INFINITY_BODY as nat
    }
}

/// `x * 2^e` for positive `e`, else `x`.
pub open spec fn raised(x: nat, e: int) -> nat {
    if e > 0 {
        x * pow2(e as nat)
    } else {
        x
    }
}

/// The quotient and remainder of `n = f * d + r`.
pub proof fn lemma_quotient(n: nat, d: nat, f: nat, r: nat)
    requires
        r < d,
        n == f * d + r,
    ensures
        n / d == f,
        n % d == r,
{
    lemma_fundamental_div_mod_converse(n as int, d as int, f as int, r as int);
}

/// `nearest` depends on the ratio alone.
pub proof fn lemma_nearest_scaled(n: nat, d: nat, k: nat)
    requires
        d > 0,
        k > 0,
    ensures
        nearest(n * k, d * k) == nearest(n, d),
{
    let f = n / d;
    let r = n % d;
    lemma_fundamental_div_mod(n as int, d as int);
    lemma_mod_bound(n as int, d as int);
    assert(n == f * d + r) by (nonlinear_arith)
        requires
            n == d * f + r,
    ;
    assert(n * k == f * (d * k) + r * k) by (nonlinear_arith)
        requires
            n == f * d + r,
    ;
    assert(r * k < d * k) by (nonlinear_arith)
        requires
            r < d,
            k > 0,
    ;
    lemma_quotient(n * k, d * k, f, r * k);
    assert(2 * (r * k) < d * k <==> 2 * r < d) by (nonlinear_arith)
        requires
            k > 0,
    ;
    assert(2 * (r * k) == d * k <==> 2 * r == d) by (nonlinear_arith)
        requires
            k > 0,
    ;
}

/// `unbounded_body` depends on the ratio alone.
pub proof fn lemma_body_scaled(num: nat, den: nat, k: nat)
    requires
        den > 0,
        k > 0,
    ensures
        unbounded_body(num * k, den * k) == unbounded_body(num, den),
        round_body(num * k, den * k) == round_body(num, den),
    decreases num - den,
{
    assert(den * k > 0) by (nonlinear_arith)
        requires
            den > 0,
            k > 0,
    ;
    assert(num * k < (den * k) * 0x100_0000 <==> num < den * 0x100_0000) by (nonlinear_arith)
        requires
            k > 0,
    ;
    if num < den * 0x100_0000 {
        lemma_nearest_scaled(num, den, k);
    } else {
        lemma_body_scaled(num, 2 * den, k);
        assert((2 * den) * k == 2 * (den * k)) by (nonlinear_arith);
    }
}

/// Unfolds `unbounded_body` through all `q` doublings of the spacing.
pub proof fn lemma_body_steps(num: nat, den: nat, q: nat)
    requires
        den > 0,
        num < den * pow2(24 + q),
        q > 0 ==> num >= den * pow2((23 + q) as nat),
    ensures
        unbounded_body(num, den) == q * 0x80_0000 + nearest(num, den * pow2(q)),
    decreases q,
{
    lemma2_to64();
    if q == 0 {
    } else {
        let p = (q - 1) as nat;
        lemma_pow2_adds(24, p);
        lemma_pow2_pos(p);
        assert(den * pow2(24 + p) >= den * 0x100_0000) by (nonlinear_arith)
            requires
                pow2(24 + p) == 0x100_0000 * pow2(p),
                pow2(p) >= 1,
        ;
        assert(23 + q == 24 + p);
        lemma_pow2_unfold(24 + q);
        lemma_pow2_unfold(q);
        assert((2 * den) * pow2(24 + p) == den * pow2(24 + q)) by (nonlinear_arith)
            requires
                pow2(24 + q) == 2 * pow2(24 + p),
        ;
        assert((2 * den) * pow2(p) == den * pow2(q)) by (nonlinear_arith)
            requires
                pow2(q) == 2 * pow2(p),
        ;
        if p > 0 {
            lemma_pow2_unfold(24 + p);
            assert(24 + p - 1 == 23 + p);
            assert((2 * den) * pow2((23 + p) as nat) == den * pow2(24 + p)) by (nonlinear_arith)
                requires
                    pow2(24 + p) == 2 * pow2((23 + p) as nat),
            ;
        }
        lemma_body_steps(num, 2 * den, p);
    }
}

/// The rounded significand keeps its 24 digits, or reaches the next power of two.
pub proof fn lemma_nearest_bounds(num: nat, den: nat, q: nat)
    requires
        den > 0,
        num < den * pow2(24 + q),
        q > 0 ==> num >= den * pow2((23 + q) as nat),
    ensures
        nearest(num, den * pow2(q)) <= 0x100_0000,
        q > 0 ==> nearest(num, den * pow2(q)) >= 0x80_0000,
{
    lemma2_to64();
    lemma_pow2_pos(q);
    lemma_pow2_adds(24, q);
    lemma_pow2_adds(23, q);
    let d = den * pow2(q);
    assert(d > 0) by (nonlinear_arith)
        requires
            den > 0,
            pow2(q) > 0,
            d == den * pow2(q),
    ;
    let f = num / d;
    let r = num % d;
    lemma_fundamental_div_mod(num as int, d as int);
    lemma_mod_bound(num as int, d as int);
    assert(den * pow2(24 + q) == d * 0x100_0000) by (nonlinear_arith)
        requires
            d == den * pow2(q),
            pow2(24 + q) == 0x100_0000 * pow2(q),
    ;
    assert(den * pow2((23 + q) as nat) == d * 0x80_0000) by (nonlinear_arith)
        requires
            d == den * pow2(q),
            pow2((23 + q) as nat) == 0x80_0000 * pow2(q),
    ;
    assert(f < 0x100_0000) by (nonlinear_arith)
        requires
            num == d * f + r,
            num < d * 0x100_0000,
            r >= 0,
            d > 0,
    ;
    if q > 0 {
        assert(f >= 0x80_0000) by (nonlinear_arith)
            requires
                num == d * f + r,
                num >= d * 0x80_0000,
                r < d,
                d > 0,
        ;
    }
}

/// The number of binary digits of `x`.
pub fn bit_length(x: u64) -> (len: u32)
    requires
        x > 0,
    ensures
        1 <= len <= 64,
        pow2((len - 1) as nat) <= x,
        x < pow2(len as nat),
{
    let lz: u32 = x.leading_zeros();
    proof {
        axiom_u64_leading_zeros(x);
        lemma2_to64();
        lemma2_to64_rest();
        let low: u64 = (63 - lz) as u64;
        lemma_u64_shr_is_div(x, low);
        let top: u64 = x >> low;
        assert((top & 1u64) != 0u64 ==> top >= 1) by (bit_vector);
        lemma_pow2_pos(low as nat);
        lemma_fundamental_div_mod(x as int, pow2(low as nat) as int);
        lemma_mod_bound(x as int, pow2(low as nat) as int);
        assert(x >= pow2(low as nat)) by (nonlinear_arith)
            requires
                x == pow2(low as nat) * top + x as int % pow2(low as nat) as int,
                x as int % pow2(low as nat) as int >= 0,
                top >= 1,
                pow2(low as nat) > 0,
        ;
        if lz > 0 {
            let high: u64 = (64 - lz) as u64;
            lemma_u64_shr_is_div(x, high);
            lemma_pow2_pos(high as nat);
            lemma_fundamental_div_mod(x as int, pow2(high as nat) as int);
            lemma_mod_bound(x as int, pow2(high as nat) as int);
            assert(pow2(high as nat) * 0 == 0);
        } else {
            lemma_pow2_unfold(64);
        }
    }
    64 - lz
}

/// Rounds `sig / 2^shift` to the nearest integer, ties to even, where `sig`
/// stands for `(sig * d + r) / d` and `sticky` tells whether `r` is not zero.
fn nearest_shifted(
    sig: u64,
    shift: u32,
    sticky: bool,
    Ghost(d): Ghost<nat>,
    Ghost(r): Ghost<nat>,
) -> (m: u64)
    requires
        sig < 0x4000_0000_0000_0000,
        r < d,
        sticky == (r > 0),
        sticky ==> shift > 0,
    ensures
        m == nearest(sig as nat * d + r, d * pow2(shift as nat)),
{
    let ghost t: nat = sig as nat * d + r;
    let ghost p: nat = pow2(shift as nat);
    proof {
        lemma2_to64();
        lemma2_to64_rest();
        lemma_pow2_pos(shift as nat);
    }
    if shift == 0 {
        proof {
            assert(d * p == d) by (nonlinear_arith)
                requires
                    p == 1,
            ;
            lemma_quotient(t, d, sig as nat, 0);
        }
        return sig;
    }
    if shift >= 64 {
        proof {
            if shift > 64 {
                lemma_pow2_strictly_increases(64, shift as nat);
            }
            assert(2 * t < d * p) by (nonlinear_arith)
                requires
                    t == sig * d + r,
                    sig < 0x4000_0000_0000_0000,
                    r < d,
                    p >= 0x1_0000_0000_0000_0000,
            ;
            lemma_quotient(t, d * p, 0, t);
        }
        return 0;
    }
    let f: u64 = sig >> (shift as u64);
    let half: u64 = 1u64 << ((shift - 1) as u64);
    proof {
        lemma_u64_shr_is_div(sig, shift as u64);
        lemma_fundamental_div_mod(sig as int, p as int);
        lemma_mod_bound(sig as int, p as int);
        lemma_pow2_unfold(shift as nat);
        if shift < 63 {
            lemma_pow2_strictly_increases(shift as nat, 63);
        }
        lemma_u64_shl_is_mul(1u64, (shift - 1) as u64);
        assert(p * f == f * p) by (nonlinear_arith);
        assert(f <= sig) by (nonlinear_arith)
            requires
                sig == f * p + sig as int % p as int,
                sig as int % p as int >= 0,
                p >= 1,
        ;
        assert(f * p <= sig);
        lemma_u64_shl_is_mul(f, shift as u64);
    }
    let rem: u64 = sig - (f << (shift as u64));
    proof {
        assert(rem < p);
        assert(p == 2 * half);
        let rr: nat = rem as nat * d + r;
        assert(t == f * (d * p) + rr) by (nonlinear_arith)
            requires
                t == sig * d + r,
                sig == f * p + rem,
                rr == rem * d + r,
        ;
        assert(rr < d * p) by (nonlinear_arith)
            requires
                rr == rem * d + r,
                rem <= p - 1,
                r < d,
        ;
        lemma_quotient(t, d * p, f as nat, rr);
        if rem < half {
            assert(2 * rr < d * p) by (nonlinear_arith)
                requires
                    rr == rem * d + r,
                    2 * rem <= p - 2,
                    r < d,
            ;
        } else if rem > half {
            assert(2 * rr > d * p) by (nonlinear_arith)
                requires
                    rr == rem * d + r,
                    2 * rem >= p + 2,
                    0 <= r < d,
            ;
        } else {
            assert(2 * rr == d * p + 2 * r) by (nonlinear_arith)
                requires
                    rr == rem * d + r,
                    2 * rem == p,
            ;
        }
    }
    if rem < half || (rem == half && !sticky && f % 2 == 0) {
        f
    } else {
        f + 1
    }
}

/// Which doubling of the spacing `(sig * d + r) / d * 2^exp` units falls in.
proof fn lemma_scaled_bounds(t: nat, d: nat, exp: int, len: nat, q: nat)
    requires
        d > 0,
        len >= 1,
        d * pow2((len - 1) as nat) <= t < d * pow2(len),
        len + exp <= 24 + q,
        q > 0 ==> len + exp == 24 + q,
    ensures
        raised(d, -exp) > 0,
        raised(t, exp) < raised(d, -exp) * pow2(24 + q),
        q > 0 ==> raised(t, exp) >= raised(d, -exp) * pow2((23 + q) as nat),
{
    lemma2_to64();
    let e: nat = if exp >= 0 { exp as nat } else { (-exp) as nat };
    lemma_pow2_pos(e);
    let pe = pow2(e);
    let low = pow2((len - 1) as nat);
    if exp >= 0 {
        assert(raised(t, exp) == t * pe) by (nonlinear_arith)
            requires
                raised(t, exp) == t * pe || (e == 0 && raised(t, exp) == t),
                e == 0 ==> pe == 1,
        ;
        lemma_pow2_adds(len, e);
        lemma_pow2_adds((len - 1) as nat, e);
        assert(t * pe < (d * pow2(len)) * pe) by (nonlinear_arith)
            requires
                t < d * pow2(len),
                pe > 0,
        ;
        assert(t * pe >= (d * low) * pe) by (nonlinear_arith)
            requires
                t >= d * low,
                pe > 0,
        ;
        assert((d * pow2(len)) * pe == d * (pow2(len) * pe)) by (nonlinear_arith);
        assert((d * low) * pe == d * (low * pe)) by (nonlinear_arith);
        if len + e < 24 + q {
            lemma_pow2_strictly_increases(len + e, 24 + q);
        }
        assert(d * pow2(len + e) <= d * pow2(24 + q)) by (nonlinear_arith)
            requires
                pow2(len + e) <= pow2(24 + q),
        ;
        if q > 0 {
            assert((len - 1) as nat + e == 23 + q);
        }
    } else {
        assert(d * pe > 0) by (nonlinear_arith)
            requires
                d > 0,
                pe > 0,
        ;
        lemma_pow2_adds(e, 24 + q);
        if len < e + 24 + q {
            lemma_pow2_strictly_increases(len, e + 24 + q);
        }
        assert((d * pe) * pow2(24 + q) == d * (pe * pow2(24 + q))) by (nonlinear_arith);
        assert(e + (24 + q) == e + 24 + q);
        assert(d * pow2(len) <= d * pow2(e + 24 + q)) by (nonlinear_arith)
            requires
                pow2(len) <= pow2(e + 24 + q),
        ;
        if q > 0 {
            lemma_pow2_adds(e, (23 + q) as nat);
            assert((d * pe) * pow2((23 + q) as nat) == d * (pe * pow2((23 + q) as nat)))
                by (nonlinear_arith);
            assert((len - 1) as nat == e + (23 + q));
        }
    }
}

/// Moves the scale of `(t / d) * 2^exp / 2^q` to one side of the fraction.
proof fn lemma_scaled_nearest(t: nat, d: nat, exp: int, q: nat)
    requires
        d > 0,
    ensures
        q >= exp ==> nearest(raised(t, exp), raised(d, -exp) * pow2(q)) == nearest(
            t,
            d * pow2((q - exp) as nat),
        ),
        q < exp ==> nearest(raised(t, exp), raised(d, -exp) * pow2(q)) == nearest(
            t * pow2((exp - q) as nat),
            d,
        ),
{
    lemma2_to64();
    lemma_pow2_pos(q);
    if q >= exp {
        if exp >= 0 {
            let e = exp as nat;
            let s = (q - exp) as nat;
            lemma_pow2_pos(e);
            lemma_pow2_pos(s);
            lemma_pow2_adds(s, e);
            assert(d * pow2(q) == (d * pow2(s)) * pow2(e)) by (nonlinear_arith)
                requires
                    pow2(q) == pow2(s) * pow2(e),
            ;
            assert(d * pow2(s) > 0) by (nonlinear_arith)
                requires
                    d > 0,
                    pow2(s) > 0,
            ;
            lemma_nearest_scaled(t, d * pow2(s), pow2(e));
            if e == 0 {
                assert(t * pow2(e) == t) by (nonlinear_arith)
                    requires
                        pow2(e) == 1,
                ;
            }
        } else {
            let e = (-exp) as nat;
            lemma_pow2_adds(e, q);
            assert((d * pow2(e)) * pow2(q) == d * (pow2(e) * pow2(q))) by (nonlinear_arith);
            assert(e + q == q - exp);
        }
    } else {
        let e = exp as nat;
        let s = (exp - q) as nat;
        lemma_pow2_adds(s, q);
        assert(t * pow2(e) == (t * pow2(s)) * pow2(q)) by (nonlinear_arith)
            requires
                pow2(e) == pow2(s) * pow2(q),
        ;
        lemma_nearest_scaled(t * pow2(s), d, pow2(q));
    }
}

/// The body of `(sig + r / d) * 2^exp` units, where `sticky` tells whether `r`
/// is not zero.
pub(crate) fn round_scaled(
    sig: u64,
    exp: i32,
    sticky: bool,
    Ghost(d): Ghost<nat>,
    Ghost(r): Ghost<nat>,
) -> (body: u32)
    requires
        0 < sig < 0x4000_0000_0000_0000,
        -0x1000 <= exp <= 0x1000,
        r < d,
        sticky == (r > 0),
        sticky ==> sig >= 0x200_0000,
    ensures
        body == round_body(raised(sig as nat * d + r, exp as int), raised(d, -exp)),
        body <= INFINITY_BODY,
{
    let len: u32 = bit_length(sig);
    let ghost t: nat = sig as nat * d + r;
    let over: i32 = len as i32 + exp - 24;
    let q: u32 = if over > 0 { over as u32 } else { 0 };
    let ghost m: nat = nearest(raised(t, exp as int), raised(d, -exp) * pow2(q as nat));
    proof {
        lemma2_to64();
        lemma2_to64_rest();
        assert(d * pow2((len - 1) as nat) <= t) by (nonlinear_arith)
            requires
                t == sig * d + r,
                sig >= pow2((len - 1) as nat),
                r >= 0,
        ;
        assert(t < d * pow2(len as nat)) by (nonlinear_arith)
            requires
                t == sig * d + r,
                sig + 1 <= pow2(len as nat),
                r < d,
        ;
        lemma_scaled_bounds(t, d, exp as int, len as nat, q as nat);
        lemma_body_steps(raised(t, exp as int), raised(d, -exp), q as nat);
        lemma_scaled_nearest(t, d, exp as int, q as nat);
        lemma_nearest_bounds(raised(t, exp as int), raised(d, -exp), q as nat);
        if len > 63 {
            assert(len == 64);
        }
        if sticky && len < 26 {
            if len < 25 {
                lemma_pow2_strictly_increases(len as nat, 25);
            }
        }
    }
    if q >= 254 {
        return INFINITY_BODY;
    }
    let sig_rounded: u64 = if q as i32 >= exp {
        nearest_shifted(sig, (q as i32 - exp) as u32, sticky, Ghost(d), Ghost(r))
    } else {
        let up: u32 = (exp - q as i32) as u32;
        proof {
            // The value needs no more than 24 digits, so nothing is lost.
            let pu = pow2(up as nat);
            lemma_pow2_pos(up as nat);
            assert(t * pu == (sig * pu) * d) by (nonlinear_arith)
                requires
                    t == sig * d,
            ;
            lemma_quotient(t * pu, d, (sig * pu) as nat, 0);
            assert(sig * pu <= 0x100_0000);
            assert(up <= 24) by {
                if up > 24 {
                    lemma_pow2_strictly_increases(24, up as nat);
                    assert(sig * pu > 0x100_0000) by (nonlinear_arith)
                        requires
                            sig >= 1,
                            pu > 0x100_0000,
                    ;
                }
            }
            lemma_u64_shl_is_mul(sig, up as u64);
        }
        sig << (up as u64)
    };
    assert(sig_rounded == m);
    q * 0x80_0000 + sig_rounded as u32
}

} // verus!
