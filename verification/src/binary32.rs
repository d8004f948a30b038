//! IEEE 754 single precision numbers, held as their bit patterns.
//!
//! Every operation is computed on integers and is proved to return the exact
//! result rounded to nearest, ties to even, so the same inputs give the same
//! bits on every machine.

#[allow(unused_imports)]
use crate::arith::Arithmetic;
use crate::rounding::{bit_length, round_scaled, INFINITY_BODY};
#[allow(unused_imports)]
use crate::rounding::{lemma_body_scaled, lemma_quotient, raised, round_body};
use vstd::arithmetic::power2::{
    lemma2_to64, lemma2_to64_rest, lemma_pow2_adds, lemma_pow2_pos, lemma_pow2_strictly_increases,
    pow2,
};
use vstd::bits::{lemma_u64_shl_is_mul, lemma_u64_shr_is_div};
use vstd::prelude::*;

verus! {

/// The sign bit.
pub const SIGN_BIT: u32 = 0x8000_0000;

/// Bits of the quiet NaN that invalid operations return.
pub const NAN_BITS: u32 = 0x7fc0_0000;

/// Bits of `+inf`.
pub const INFINITY_BITS: u32 = 0x7f80_0000;

/// Bits of `-inf`.
pub const NEG_INFINITY_BITS: u32 = 0xff80_0000;

/// Bits of `0.5`.
pub const HALF_BITS: u32 = 0x3f00_0000;

/// Bits of `1.0`.
pub const ONE_BITS: u32 = 0x3f80_0000;

/// A single precision number.
#[derive(Clone, Copy, Debug)]
pub struct Binary32 {
    /// Sign, exponent and fraction, from the most significant bit down.
    pub bits: u32,
}

/// The magnitude that a finite body stands for, in units of `2^-149`.
pub open spec fn body_magnitude(body: nat) -> nat {
    if body < 0x80_0000 {
        body
    } else {
        (0x80_0000 + body % 0x80_0000) * pow2((body / 0x80_0000 - 1) as nat)
    }
}

/// The number with the given sign and body.
pub open spec fn compose(negative: bool, body: nat) -> Binary32 {
    Binary32 {
        bits: (if negative {
            body + SIGN_BIT
        } else {
            body as int
        }) as u32,
    }
}

impl Binary32 {
    /// The sign bit is set.
    pub open spec fn negative(self) -> bool {
        self.bits >= SIGN_BIT
    }

    /// All bits but the sign.
    pub open spec fn body(self) -> nat {
        (self.bits % SIGN_BIT) as nat
    }

    /// Not a number.
    pub open spec fn nan(self) -> bool {
        self.body() > INFINITY_BODY
    }

    /// Positive or negative infinity.
    pub open spec fn infinite(self) -> bool {
        self.body() == INFINITY_BODY
    }

    /// Neither infinite nor NaN.
    pub open spec fn finite(self) -> bool {
        self.body() < INFINITY_BODY
    }

    /// Positive or negative zero.
    pub open spec fn is_zero(self) -> bool {
        self.body() == 0
    }

    /// The magnitude of a finite number, in units of `2^-149`.
    pub open spec fn magnitude(self) -> nat {
        body_magnitude(self.body())
    }

    /// The value of a finite number, in units of `2^-149`.
    pub open spec fn units(self) -> int {
        if self.negative() {
            -(self.magnitude() as int)
        } else {
            self.magnitude() as int
        }
    }

    /// An integer ordered like the numbers; both zeros have key 0.
    pub open spec fn key(self) -> int {
        if self.negative() {
            -(self.body() as int)
        } else {
            self.body() as int
        }
    }

    /// The quiet NaN.
    pub open spec fn quiet_nan() -> Binary32 {
        Binary32 { bits: NAN_BITS }
    }

    /// The number with the opposite sign.
    pub open spec fn negated(self) -> Binary32 {
        compose(!self.negative(), self.body())
    }

    /// Less than or equal, as numbers.
    pub open spec fn at_most(self, other: Binary32) -> bool {
        !self.nan() && !other.nan() && self.key() <= other.key()
    }

    /// Less than, as numbers.
    pub open spec fn below(self, other: Binary32) -> bool {
        !self.nan() && !other.nan() && self.key() < other.key()
    }

    /// The lesser of two numbers, the first where they are equal; a NaN gives
    /// way to the other number.
    pub open spec fn lesser(self, other: Binary32) -> Binary32 {
        if self.nan() || other.below(self) {
            other
        } else {
            self
        }
    }

    /// The greater of two numbers, the first where they are equal; a NaN gives
    /// way to the other number.
    pub open spec fn greater(self, other: Binary32) -> Binary32 {
        if self.nan() || self.below(other) {
            other
        } else {
            self
        }
    }

    /// The number with the given bit pattern.
    pub fn from_bits(bits: u32) -> (r: Binary32)
        ensures
            r.bits == bits,
    {
        Binary32 { bits }
    }

    /// The bit pattern.
    pub fn to_bits(self) -> (bits: u32)
        ensures
            bits == self.bits,
    {
        self.bits
    }

    fn composed(negative: bool, body: u32) -> (r: Binary32)
        requires
            body <= INFINITY_BODY,
        ensures
            r == compose(negative, body as nat),
    {
        if negative {
            Binary32 { bits: body + SIGN_BIT }
        } else {
            Binary32 { bits: body }
        }
    }

    /// Significand and exponent of a finite number.
    fn unpacked(self) -> (r: (u32, u32))
        requires
            self.finite(),
        ensures
            self.magnitude() == r.0 * pow2(r.1 as nat),
            r.0 < 0x100_0000,
            r.1 <= 253,
            r.1 > 0 ==> r.0 >= 0x80_0000,
            self.body() == r.1 * 0x80_0000 + r.0,
            r.0 == 0 <==> self.is_zero(),
    {
        let body: u32 = self.bits % SIGN_BIT;
        if body < 0x80_0000 {
            proof {
                lemma2_to64();
            }
            (body, 0)
        } else {
            (0x80_0000 + body % 0x80_0000, body / 0x80_0000 - 1)
        }
    }

    /// Whether the number is NaN.
    pub fn is_nan(self) -> (r: bool)
        ensures
            r == self.nan(),
    {
        self.bits % SIGN_BIT > INFINITY_BODY
    }

    /// The number with the opposite sign.
    pub fn neg(self) -> (r: Binary32)
        ensures
            r == self.negated(),
    {
        if self.bits >= SIGN_BIT {
            Binary32 { bits: self.bits - SIGN_BIT }
        } else {
            Binary32 { bits: self.bits + SIGN_BIT }
        }
    }
}

/// IEEE 754 arithmetic, rounding to nearest with ties to even.
impl Arithmetic for Binary32 {
    /// IEEE addition.
    open spec fn plus(self, other: Binary32) -> Binary32 {
        if self.nan() || other.nan() {
            Binary32::quiet_nan()
        } else if self.infinite() {
            if other.infinite() && self.negative() != other.negative() {
                Binary32::quiet_nan()
            } else {
                self
            }
        } else if other.infinite() {
            other
        } else {
            let total = self.units() + other.units();
            if total == 0 {
                compose(self.negative() && other.negative(), 0)
            } else if total < 0 {
                compose(true, round_body((-total) as nat, 1))
            } else {
                compose(false, round_body(total as nat, 1))
            }
        }
    }

    /// IEEE subtraction.
    open spec fn minus(self, other: Binary32) -> Binary32 {
        self.plus(other.negated())
    }

    /// IEEE multiplication.
    open spec fn times(self, other: Binary32) -> Binary32 {
        let negative = self.negative() != other.negative();
        if self.nan() || other.nan() || (self.infinite() && other.is_zero()) || (self.is_zero()
            && other.infinite()) {
            Binary32::quiet_nan()
        } else if self.infinite() || other.infinite() {
            compose(negative, INFINITY_BODY as nat)
        } else {
            compose(negative, round_body(self.magnitude() * other.magnitude(), pow2(149)))
        }
    }

    /// IEEE division.
    open spec fn over(self, other: Binary32) -> Binary32 {
        let negative = self.negative() != other.negative();
        if self.nan() || other.nan() || (self.infinite() && other.infinite()) || (self.is_zero()
            && other.is_zero()) {
            Binary32::quiet_nan()
        } else if self.infinite() || other.is_zero() {
            compose(negative, INFINITY_BODY as nat)
        } else if other.infinite() {
            compose(negative, 0)
        } else {
            compose(negative, round_body(self.magnitude() * pow2(149), other.magnitude()))
        }
    }

    /// The number nearest to a natural number.
    open spec fn of_nat(n: nat) -> Binary32 {
        compose(false, round_body(n * pow2(149), 1))
    }

    /// The integral part, brought into the range of a byte; 0 for NaN.
    open spec fn saturated(self) -> u8 {
        if self.nan() || self.negative() {
            0
        } else if self.infinite() || self.magnitude() / pow2(149) > 255 {
            255
        } else {
            (self.magnitude() / pow2(149)) as u8
        }
    }

    /// The exponent field of `2^-k`, with an empty fraction.
    open spec fn half_pow(k: nat) -> Binary32 {
        compose(false, ((127 - k) * 0x80_0000) as nat)
    }
}

/// Bodies of equal ratios are equal.
pub proof fn lemma_body_ratio(num: nat, den: nat, num2: nat, den2: nat)
    requires
        den > 0,
        den2 > 0,
        num * den2 == num2 * den,
    ensures
        round_body(num, den) == round_body(num2, den2),
{
    lemma_body_scaled(num, den, den2);
    lemma_body_scaled(num2, den2, den);
    assert(den * den2 == den2 * den) by (nonlinear_arith);
}

/// The aligned sum or difference of two magnitudes `ma * 2^ea >= mb * 2^eb`
/// whose exponents are far apart, scaled by `2^(ea - eb - 14)`.
proof fn lemma_far_apart(ma: nat, ea: nat, mb: nat, eb: nat, d: nat)
    requires
        ea >= eb + 38,
        d == pow2((ea - eb - 14) as nat),
        mb < 0x100_0000,
    ensures
        mb < d,
        ((ma * 0x4000) * d + mb) * pow2((ea - 14) as nat) == (ma * pow2(ea) + mb * pow2(eb)) * d,
        (ma * 0x4000) * d * pow2((ea - 14) as nat) == ma * pow2(ea) * d,
        mb * pow2((ea - 14) as nat) == mb * pow2(eb) * d,
{
    lemma2_to64();
    let gap = (ea - eb - 14) as nat;
    if gap > 24 {
        lemma_pow2_strictly_increases(24, gap);
    }
    lemma_pow2_adds(eb, gap);
    lemma_pow2_adds(14, (ea - 14) as nat);
    let pa = pow2((ea - 14) as nat);
    let pb = pow2(eb);
    let pe = pow2(ea);
    assert(eb + gap == ea - 14);
    assert(pa == pb * d);
    assert(pe == 0x4000 * pa);
    assert((ma * 0x4000) * d * pa == ma * pe * d) by (nonlinear_arith)
        requires
            pe == 0x4000 * pa,
    ;
    assert(mb * pa == mb * pb * d) by (nonlinear_arith)
        requires
            pa == pb * d,
    ;
    assert(((ma * 0x4000) * d + mb) * pa == (ma * 0x4000) * d * pa + mb * pa) by (nonlinear_arith);
    assert((ma * pe + mb * pb) * d == ma * pe * d + mb * pb * d) by (nonlinear_arith);
}

/// The body of `ma * 2^ea + mb * 2^eb`, or of `ma * 2^ea - mb * 2^eb`.
#[verifier::rlimit(40)]
fn combined_body(ma: u32, ea: u32, mb: u32, eb: u32, subtract: bool) -> (body: u32)
    requires
        ma < 0x100_0000,
        mb < 0x100_0000,
        eb <= ea <= 253,
        ea > 0 ==> ma >= 0x80_0000,
        ea == eb ==> ma >= mb,
    ensures
        !subtract ==> body == round_body(
            (ma * pow2(ea as nat) + mb * pow2(eb as nat)) as nat,
            1,
        ),
        subtract ==> ma * pow2(ea as nat) >= mb * pow2(eb as nat),
        subtract ==> body == round_body(
            (ma * pow2(ea as nat) - mb * pow2(eb as nat)) as nat,
            1,
        ),
        body <= INFINITY_BODY,
{
    let gap: u32 = ea - eb;
    let ghost pa = pow2(ea as nat);
    let ghost pb = pow2(eb as nat);
    proof {
        lemma2_to64();
        lemma2_to64_rest();
        lemma_pow2_pos(eb as nat);
    }
    if gap < 38 {
        proof {
            lemma_pow2_adds(gap as nat, eb as nat);
            lemma_pow2_pos(gap as nat);
            if gap < 37 {
                lemma_pow2_strictly_increases(gap as nat, 37);
            }
            assert(ma * pow2(gap as nat) <= 0x100_0000 * 0x20_0000_0000) by (nonlinear_arith)
                requires
                    ma <= 0x100_0000,
                    pow2(gap as nat) <= 0x20_0000_0000,
            ;
            lemma_u64_shl_is_mul(ma as u64, gap as u64);
        }
        let high: u64 = (ma as u64) << (gap as u64);
        proof {
            if subtract {
                if gap > 0 {
                    lemma_pow2_pos((gap - 1) as nat);
                    vstd::arithmetic::power2::lemma_pow2_unfold(gap as nat);
                    assert(high >= mb) by (nonlinear_arith)
                        requires
                            high == ma * pow2(gap as nat),
                            pow2(gap as nat) >= 2,
                            ma >= 0x80_0000,
                            mb < 0x100_0000,
                    ;
                }
            }
            assert(high * pb == ma * pa) by (nonlinear_arith)
                requires
                    high == ma * pow2(gap as nat),
                    pa == pow2(gap as nat) * pb,
            ;
        }
        let sig: u64 = if subtract {
            high - mb as u64
        } else {
            high + mb as u64
        };
        proof {
            if subtract {
                assert(sig * pb == ma * pa - mb * pb) by (nonlinear_arith)
                    requires
                        sig == high - mb,
                        high * pb == ma * pa,
                ;
            } else {
                assert(sig * pb == ma * pa + mb * pb) by (nonlinear_arith)
                    requires
                        sig == high + mb,
                        high * pb == ma * pa,
                ;
            }
            assert(sig * pb >= 0) by (nonlinear_arith)
                requires
                    sig >= 0,
                    pb >= 0,
            ;
        }
        if sig == 0 {
            proof {
                assert(0 * pb == 0);
                lemma_quotient(0, 1, 0, 0);
            }
            return 0;
        }
        let body: u32 = round_scaled(sig, eb as i32, false, Ghost(1), Ghost(0));
        proof {
            assert(sig as nat * 1 + 0 == sig as nat);
            assert(raised(sig as nat, eb as int) == sig as nat * pb) by (nonlinear_arith)
                requires
                    raised(sig as nat, eb as int) == sig as nat * pb || (eb == 0 && raised(
                        sig as nat,
                        eb as int,
                    ) == sig),
                    eb == 0 ==> pb == 1,
            ;
        }
        body
    } else {
        let ghost d = pow2((gap - 14) as nat);
        let ghost pe = pow2((ea - 14) as nat);
        let base: u64 = ma as u64 * 0x4000;
        let ghost exact: nat = if subtract {
            (ma * pa - mb * pb) as nat
        } else {
            (ma * pa + mb * pb) as nat
        };
        proof {
            lemma_far_apart(ma as nat, ea as nat, mb as nat, eb as nat, d);
            lemma_pow2_pos((gap - 14) as nat);
            lemma_pow2_pos((ea - 14) as nat);
        }
        if mb == 0 {
            let body: u32 = round_scaled(base, ea as i32 - 14, false, Ghost(d), Ghost(0));
            proof {
                assert(mb * pb == 0);
                assert(exact == ma * pa);
                assert(ma * pa >= 0) by (nonlinear_arith)
                    requires
                        ma >= 0,
                        pa >= 0,
                ;
                assert(base as nat * d + 0 == (ma * 0x4000) * d);
                lemma_body_ratio(raised(base as nat * d, ea - 14), d, exact, 1);
            }
            body
        } else if subtract {
            let body: u32 = round_scaled(
                base - 1,
                ea as i32 - 14,
                true,
                Ghost(d),
                Ghost((d - mb) as nat),
            );
            proof {
                let n = (base - 1) as nat * d + (d - mb) as nat;
                assert(n == base * d - mb) by (nonlinear_arith)
                    requires
                        n == (base - 1) * d + (d - mb),
                ;
                assert(n * pe == base * d * pe - mb * pe) by (nonlinear_arith)
                    requires
                        n == base * d - mb,
                ;
                assert((ma * pa - mb * pb) * d == ma * pa * d - mb * pb * d) by (nonlinear_arith);
                assert(n * pe == (ma * pa - mb * pb) * d);
                assert(ma * pa - mb * pb >= 0) by (nonlinear_arith)
                    requires
                        (ma * pa - mb * pb) * d == n * pe,
                        n >= 0,
                        pe >= 0,
                        d > 0,
                ;
                lemma_body_ratio(n * pe, d, exact, 1);
            }
            body
        } else {
            let body: u32 = round_scaled(base, ea as i32 - 14, true, Ghost(d), Ghost(mb as nat));
            proof {
                assert(ma * pa + mb * pb >= 0) by (nonlinear_arith)
                    requires
                        ma >= 0,
                        pa >= 0,
                        mb >= 0,
                        pb >= 0,
                ;
                lemma_body_ratio((base as nat * d + mb as nat) * pe, d, exact, 1);
            }
            body
        }
    }
}

/// Significand and exponent of a body.
pub proof fn lemma_body_parts(body: nat) -> (r: (nat, nat))
    ensures
        body_magnitude(body) == r.0 * pow2(r.1),
        body == r.1 * 0x80_0000 + r.0,
        r.0 < 0x100_0000,
        r.1 > 0 ==> r.0 >= 0x80_0000,
{
    lemma2_to64();
    if body < 0x80_0000 {
        assert(body * 1 == body);
        (body, 0)
    } else {
        (0x80_0000 + body % 0x80_0000, (body / 0x80_0000 - 1) as nat)
    }
}

/// A greater body stands for a greater magnitude.
pub proof fn lemma_body_order(a: nat, b: nat)
    requires
        a < b,
    ensures
        body_magnitude(a) < body_magnitude(b),
{
    let (ma, ea) = lemma_body_parts(a);
    let (mb, eb) = lemma_body_parts(b);
    lemma2_to64();
    lemma_pow2_pos(ea);
    let pa = pow2(ea);
    let pb = pow2(eb);
    if ea >= eb {
        assert(ea == eb);
        assert(ma * pa < mb * pa) by (nonlinear_arith)
            requires
                ma < mb,
                pa > 0,
        ;
    } else {
        let gap = (eb - ea) as nat;
        lemma_pow2_adds(ea, gap);
        vstd::arithmetic::power2::lemma_pow2_unfold(gap);
        lemma_pow2_pos((gap - 1) as nat);
        assert(ma * pa < mb * pb) by (nonlinear_arith)
            requires
                ma < 0x100_0000,
                mb >= 0x80_0000,
                pb == pa * pow2(gap),
                pow2(gap) >= 2,
                pa > 0,
        ;
    }
}

impl Binary32 {
    /// Sum, rounded to nearest.
    pub fn add(self, other: Binary32) -> (r: Binary32)
        ensures
            r == self.plus(other),
    {
        let xb: u32 = self.bits % SIGN_BIT;
        let yb: u32 = other.bits % SIGN_BIT;
        let xs: bool = self.bits >= SIGN_BIT;
        let ys: bool = other.bits >= SIGN_BIT;
        if xb > INFINITY_BODY || yb > INFINITY_BODY {
            return Binary32 { bits: NAN_BITS };
        }
        if xb == INFINITY_BODY {
            return if yb == INFINITY_BODY && xs != ys {
                Binary32 { bits: NAN_BITS }
            } else {
                self
            };
        }
        if yb == INFINITY_BODY {
            return other;
        }
        if xb == yb && xs != ys {
            return Binary32 { bits: 0 };
        }
        let first: bool = xb >= yb;
        let (hi, lo) = if first {
            (self, other)
        } else {
            (other, self)
        };
        let (ma, ea) = hi.unpacked();
        let (mb, eb) = lo.unpacked();
        let body: u32 = combined_body(ma, ea, mb, eb, xs != ys);
        let negative: bool = if first {
            xs
        } else {
            ys
        };
        proof {
            if xb > yb {
                lemma_body_order(yb as nat, xb as nat);
            }
            if xb < yb {
                lemma_body_order(xb as nat, yb as nat);
            }
            lemma_quotient(0, 1, 0, 0);
        }
        Self::composed(negative, body)
    }

    /// Difference, rounded to nearest.
    pub fn sub(self, other: Binary32) -> (r: Binary32)
        ensures
            r == self.minus(other),
    {
        self.add(other.neg())
    }

    /// Product, rounded to nearest.
    pub fn mul(self, other: Binary32) -> (r: Binary32)
        ensures
            r == self.times(other),
    {
        let xb: u32 = self.bits % SIGN_BIT;
        let yb: u32 = other.bits % SIGN_BIT;
        let negative: bool = (self.bits >= SIGN_BIT) != (other.bits >= SIGN_BIT);
        if xb > INFINITY_BODY || yb > INFINITY_BODY || (xb == INFINITY_BODY && yb == 0) || (xb == 0
            && yb == INFINITY_BODY) {
            return Binary32 { bits: NAN_BITS };
        }
        if xb == INFINITY_BODY || yb == INFINITY_BODY {
            return Self::composed(negative, INFINITY_BODY);
        }
        let (ma, ea) = self.unpacked();
        let (mb, eb) = other.unpacked();
        proof {
            lemma_pow2_pos(149);
        }
        if xb == 0 || yb == 0 {
            proof {
                let n = self.magnitude() * other.magnitude();
                assert(n == 0) by (nonlinear_arith)
                    requires
                        n == self.magnitude() * other.magnitude(),
                        self.magnitude() == 0 || other.magnitude() == 0,
                ;
                lemma_quotient(0, pow2(149), 0, 0);
            }
            return Self::composed(negative, 0);
        }
        proof {
            assert(0 < ma * mb < 0x1_0000_0000_0000) by (nonlinear_arith)
                requires
                    0 < ma < 0x100_0000,
                    0 < mb < 0x100_0000,
            ;
        }
        let sig: u64 = ma as u64 * mb as u64;
        let exp: i32 = ea as i32 + eb as i32 - 149;
        let body: u32 = round_scaled(sig, exp, false, Ghost(1), Ghost(0));
        proof {
            lemma_product_scale(ma as nat, ea as nat, mb as nat, eb as nat, exp as int);
            assert(sig as nat * 1 + 0 == ma as nat * mb as nat);
        }
        Self::composed(negative, body)
    }

    /// Quotient, rounded to nearest.
    pub fn div(self, other: Binary32) -> (r: Binary32)
        ensures
            r == self.over(other),
    {
        let xb: u32 = self.bits % SIGN_BIT;
        let yb: u32 = other.bits % SIGN_BIT;
        let negative: bool = (self.bits >= SIGN_BIT) != (other.bits >= SIGN_BIT);
        if xb > INFINITY_BODY || yb > INFINITY_BODY || (xb == INFINITY_BODY && yb == INFINITY_BODY)
            || (xb == 0 && yb == 0) {
            return Binary32 { bits: NAN_BITS };
        }
        if xb == INFINITY_BODY || yb == 0 {
            return Self::composed(negative, INFINITY_BODY);
        }
        if yb == INFINITY_BODY {
            return Self::composed(negative, 0);
        }
        let (mb, eb) = other.unpacked();
        proof {
            lemma_pow2_pos(eb as nat);
            assert(other.magnitude() > 0) by (nonlinear_arith)
                requires
                    other.magnitude() == mb * pow2(eb as nat),
                    mb > 0,
                    pow2(eb as nat) > 0,
            ;
        }
        if xb == 0 {
            proof {
                assert(0 * pow2(149) == 0);
                lemma_quotient(0, other.magnitude(), 0, 0);
            }
            return Self::composed(negative, 0);
        }
        let (ma, ea) = self.unpacked();
        let (na, sa) = normalized(ma);
        let (nb, sb) = normalized(mb);
        let shifted: u64 = na as u64 * 0x1000_0000;
        let sig: u64 = shifted / nb as u64;
        let rem: u64 = shifted % nb as u64;
        proof {
            vstd::arithmetic::div_mod::lemma_fundamental_div_mod(shifted as int, nb as int);
            assert(sig >= 0x200_0000) by (nonlinear_arith)
                requires
                    shifted == nb * sig + rem,
                    shifted >= 0x80_0000 * 0x1000_0000,
                    rem < nb,
                    nb < 0x100_0000,
            ;
            assert(nb * sig == sig * nb) by (nonlinear_arith);
        }
        let exp: i32 = (ea as i32 - sa as i32) - (eb as i32 - sb as i32) + 121;
        let body: u32 = round_scaled(sig, exp, rem != 0, Ghost(nb as nat), Ghost(rem as nat));
        proof {
            lemma_quotient_scale(
                ma as nat,
                ea as nat,
                sa as nat,
                mb as nat,
                eb as nat,
                sb as nat,
                exp as int,
            );
        }
        Self::composed(negative, body)
    }
}

impl Binary32 {
    /// The number nearest to an integer.
    pub fn from_u64(n: u64) -> (r: Binary32)
        ensures
            r == Self::of_nat(n as nat),
    {
        let ghost big = pow2(149);
        proof {
            lemma_pow2_pos(149);
        }
        if n == 0 {
            proof {
                assert(0 * big == 0);
                lemma_quotient(0, 1, 0, 0);
            }
            return Binary32 { bits: 0 };
        }
        if n < 0x4000_0000_0000_0000 {
            let body: u32 = round_scaled(n, 149, false, Ghost(1), Ghost(0));
            proof {
                assert(n as nat * 1 + 0 == n as nat);
            }
            return Self::composed(false, body);
        }
        let sig: u64 = n / 4;
        let rem: u64 = n % 4;
        let body: u32 = round_scaled(sig, 151, rem != 0, Ghost(4), Ghost(rem as nat));
        proof {
            lemma2_to64();
            lemma_pow2_adds(2, 149);
            assert(sig as nat * 4 + rem as nat == n as nat);
            assert((n as nat * pow2(151)) * 1 == (n as nat * big) * 4) by (nonlinear_arith)
                requires
                    pow2(151) == 4 * big,
            ;
            lemma_body_ratio(n as nat * pow2(151), 4, n as nat * big, 1);
        }
        Self::composed(false, body)
    }

    /// The integral part as a byte; out of range values saturate and NaN gives 0.
    pub fn to_u8(self) -> (r: u8)
        ensures
            r == self.saturated(),
    {
        if self.is_nan() || self.bits >= SIGN_BIT {
            return 0;
        }
        if self.bits == INFINITY_BODY {
            return 255;
        }
        let (m, e) = self.unpacked();
        let ghost big = pow2(149);
        let ghost pe = pow2(e as nat);
        proof {
            lemma2_to64();
            lemma_pow2_pos(149);
            lemma_pow2_pos(e as nat);
        }
        if e < 126 {
            proof {
                let gap = (149 - e) as nat;
                lemma_pow2_adds(e as nat, gap);
                if gap > 24 {
                    lemma_pow2_strictly_increases(24, gap);
                }
                assert(m * pe < big) by (nonlinear_arith)
                    requires
                        m < 0x100_0000,
                        big == pe * pow2(gap),
                        pow2(gap) >= 0x100_0000,
                        pe > 0,
                ;
                lemma_quotient(self.magnitude(), big, 0, self.magnitude());
            }
            return 0;
        }
        if e >= 134 {
            proof {
                if e > 134 {
                    lemma_pow2_strictly_increases(134, e as nat);
                }
                lemma_pow2_adds(134, 15);
                assert(m * pe >= 256 * big) by (nonlinear_arith)
                    requires
                        m >= 0x80_0000,
                        pe >= pow2(134),
                        big == pow2(134) * 0x8000,
                ;
                vstd::arithmetic::div_mod::lemma_fundamental_div_mod(
                    self.magnitude() as int,
                    big as int,
                );
                vstd::arithmetic::div_mod::lemma_mod_bound(self.magnitude() as int, big as int);
                let quot = self.magnitude() / big;
                assert(quot >= 256) by (nonlinear_arith)
                    requires
                        self.magnitude() == big * quot + self.magnitude() % big,
                        self.magnitude() >= 256 * big,
                        self.magnitude() % big < big,
                        big > 0,
                ;
            }
            return 255;
        }
        let down: u64 = (149 - e) as u64;
        let q: u64 = (m as u64) >> down;
        proof {
            let pd = pow2(down as nat);
            lemma_pow2_pos(down as nat);
            lemma_u64_shr_is_div(m as u64, down);
            lemma_pow2_adds(down as nat, e as nat);
            let r0 = m as nat % pd;
            vstd::arithmetic::div_mod::lemma_fundamental_div_mod(m as int, pd as int);
            vstd::arithmetic::div_mod::lemma_mod_bound(m as int, pd as int);
            assert(m * pe == q * big + r0 * pe) by (nonlinear_arith)
                requires
                    m == pd * q + r0,
                    big == pd * pe,
            ;
            assert(r0 * pe < big) by (nonlinear_arith)
                requires
                    r0 < pd,
                    big == pd * pe,
                    pe > 0,
            ;
            lemma_quotient(self.magnitude(), big, q as nat, r0 * pe);
            if down > 16 {
                lemma_pow2_strictly_increases(16, down as nat);
            }
            assert(q <= 255) by (nonlinear_arith)
                requires
                    m == pd * q + r0,
                    m < 0x100_0000,
                    pd >= 0x1_0000,
                    r0 >= 0,
            ;
        }
        q as u8
    }

    /// Whether the number is less than or equal to another.
    pub fn le(self, other: Binary32) -> (r: bool)
        ensures
            r == self.at_most(other),
    {
        !self.is_nan() && !other.is_nan() && self.order_key() <= other.order_key()
    }

    /// Whether the number is less than another.
    pub fn lt(self, other: Binary32) -> (r: bool)
        ensures
            r == self.below(other),
    {
        !self.is_nan() && !other.is_nan() && self.order_key() < other.order_key()
    }

    fn order_key(self) -> (k: i64)
        ensures
            k == self.key(),
    {
        let body: i64 = (self.bits % SIGN_BIT) as i64;
        if self.bits >= SIGN_BIT {
            -body
        } else {
            body
        }
    }

    /// The lesser of two numbers; a NaN gives way to the other number.
    pub fn min(self, other: Binary32) -> (r: Binary32)
        ensures
            r == self.lesser(other),
    {
        if self.is_nan() || other.lt(self) {
            other
        } else {
            self
        }
    }

    /// The greater of two numbers; a NaN gives way to the other number.
    pub fn max(self, other: Binary32) -> (r: Binary32)
        ensures
            r == self.greater(other),
    {
        if self.is_nan() || self.lt(other) {
            other
        } else {
            self
        }
    }
}

/// Equality as numbers: NaN differs from everything, and the zeros are equal.
impl PartialEq for Binary32 {
    fn eq(&self, other: &Binary32) -> (r: bool) {
        !self.is_nan() && !other.is_nan() && self.order_key() == other.order_key()
    }
}

impl vstd::std_specs::cmp::PartialEqSpecImpl for Binary32 {
    open spec fn obeys_eq_spec() -> bool {
        true
    }

    open spec fn eq_spec(&self, other: &Binary32) -> bool {
        !self.nan() && !other.nan() && self.key() == other.key()
    }
}

/// `m` scaled up to 24 binary digits.
fn normalized(m: u32) -> (r: (u32, u32))
    requires
        0 < m < 0x100_0000,
    ensures
        r.0 == m * pow2(r.1 as nat),
        0x80_0000 <= r.0 < 0x100_0000,
        r.1 <= 23,
{
    let len: u32 = bit_length(m as u64);
    proof {
        lemma2_to64();
        if len > 24 {
            if len > 25 {
                lemma_pow2_strictly_increases(24, (len - 1) as nat);
            }
        }
    }
    let up: u32 = 24 - len;
    proof {
        let pu = pow2(up as nat);
        lemma_pow2_pos(up as nat);
        lemma_pow2_adds((len - 1) as nat, up as nat);
        lemma_pow2_adds(len as nat, up as nat);
        assert(m * pu >= 0x80_0000) by (nonlinear_arith)
            requires
                m >= pow2((len - 1) as nat),
                pow2((len - 1) as nat) * pu == 0x80_0000,
                pu > 0,
        ;
        assert(m * pu < 0x100_0000) by (nonlinear_arith)
            requires
                m < pow2(len as nat),
                pow2(len as nat) * pu == 0x100_0000,
                pu > 0,
        ;
        lemma_u64_shl_is_mul(m as u64, up as u64);
    }
    (((m as u64) << (up as u64)) as u32, up)
}

/// The body of a product, with the powers of two taken together.
proof fn lemma_product_scale(ma: nat, ea: nat, mb: nat, eb: nat, exp: int)
    requires
        exp == ea + eb - 149,
    ensures
        round_body(raised(ma * mb, exp), raised(1, -exp)) == round_body(
            (ma * pow2(ea)) * (mb * pow2(eb)),
            pow2(149),
        ),
{
    lemma2_to64();
    let sig = ma * mb;
    let pa = pow2(ea);
    let pb = pow2(eb);
    let big = pow2(149);
    lemma_pow2_pos(149);
    lemma_pow2_adds(ea, eb);
    let n = (ma * pa) * (mb * pb);
    assert(n == sig * pow2(ea + eb)) by (nonlinear_arith)
        requires
            n == (ma * pa) * (mb * pb),
            sig == ma * mb,
            pow2(ea + eb) == pa * pb,
    ;
    if exp >= 0 {
        let e = exp as nat;
        lemma_pow2_adds(e, 149);
        if e == 0 {
            assert(sig * pow2(e) == sig) by (nonlinear_arith)
                requires
                    pow2(e) == 1,
            ;
        }
        assert((sig * pow2(e)) * big == n * 1) by (nonlinear_arith)
            requires
                n == sig * pow2(ea + eb),
                pow2(ea + eb) == pow2(e) * big,
        ;
        lemma_body_ratio(raised(sig, exp), 1, n, big);
    } else {
        let e = (-exp) as nat;
        lemma_pow2_pos(e);
        lemma_pow2_adds(ea + eb, e);
        assert(1 * pow2(e) == pow2(e));
        assert(sig * big == n * pow2(e)) by (nonlinear_arith)
            requires
                n == sig * pow2(ea + eb),
                big == pow2(ea + eb) * pow2(e),
        ;
        lemma_body_ratio(sig, pow2(e), n, big);
    }
}

/// The body of a quotient, with the powers of two taken together.
proof fn lemma_quotient_scale(ma: nat, ea: nat, sa: nat, mb: nat, eb: nat, sb: nat, exp: int)
    requires
        ma > 0,
        mb > 0,
        exp == ea - sa - eb + sb + 121,
    ensures
        round_body(
            raised(ma * pow2(sa) * 0x1000_0000, exp),
            raised(mb * pow2(sb), -exp),
        ) == round_body((ma * pow2(ea)) * pow2(149), mb * pow2(eb)),
{
    lemma2_to64();
    let pea = pow2(ea);
    let peb = pow2(eb);
    let psa = pow2(sa);
    let psb = pow2(sb);
    let big = pow2(149);
    lemma_pow2_pos(eb);
    lemma_pow2_pos(sb);
    let top = ma * psa * 0x1000_0000;
    let bottom = mb * psb;
    assert(bottom > 0) by (nonlinear_arith)
        requires
            bottom == mb * psb,
            mb > 0,
            psb > 0,
    ;
    assert(mb * peb > 0) by (nonlinear_arith)
        requires
            mb > 0,
            peb > 0,
    ;
    if exp >= 0 {
        let e = exp as nat;
        let pe = pow2(e);
        if e == 0 {
            assert(top * pe == top) by (nonlinear_arith)
                requires
                    pe == 1,
            ;
        }
        lemma_pow2_adds(sa, 28);
        lemma_pow2_adds(sa + 28, e);
        lemma_pow2_adds(sa + 28 + e, eb);
        lemma_pow2_adds(ea, 149);
        lemma_pow2_adds(ea + 149, sb);
        assert(sa + 28 + e + eb == ea + 149 + sb);
        assert(psa * 0x1000_0000 * pe * peb == pea * big * psb);
        assert((ma * psa * 0x1000_0000 * pe) * (mb * peb) == (ma * mb) * (psa * 0x1000_0000 * pe
            * peb)) by (nonlinear_arith);
        assert(((ma * pea) * big) * (mb * psb) == (ma * mb) * (pea * big * psb))
            by (nonlinear_arith);
        lemma_body_ratio(top * pe, bottom, (ma * pea) * big, mb * peb);
    } else {
        let e = (-exp) as nat;
        let pe = pow2(e);
        lemma_pow2_pos(e);
        lemma_pow2_adds(sa, 28);
        lemma_pow2_adds(sa + 28, eb);
        lemma_pow2_adds(ea, 149);
        lemma_pow2_adds(ea + 149, sb);
        lemma_pow2_adds(ea + 149 + sb, e);
        assert(sa + 28 + eb == ea + 149 + sb + e);
        assert(psa * 0x1000_0000 * peb == pea * big * psb * pe);
        assert(bottom * pe > 0) by (nonlinear_arith)
            requires
                bottom > 0,
                pe > 0,
        ;
        assert((ma * psa * 0x1000_0000) * (mb * peb) == (ma * mb) * (psa * 0x1000_0000 * peb))
            by (nonlinear_arith);
        assert(((ma * pea) * big) * ((mb * psb) * pe) == (ma * mb) * (pea * big * psb * pe))
            by (nonlinear_arith);
        lemma_body_ratio(top, bottom * pe, (ma * pea) * big, mb * peb);
    }
}

} // verus!
