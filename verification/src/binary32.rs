//! Single precision arithmetic on bit patterns.
//!
//! A [`Binary32`] is the 32 bit interchange pattern of IEEE 754: a sign, eight exponent bits and
//! 23 fraction bits. The operations are the correctly rounded ones (nearest, ties to even), so
//! they give the same patterns as the hardware does; every operation that gives a NaN gives the
//! quiet NaN [`QUIET_NAN`].
use crate::rounding::{
    law_round_nearest, lemma_magnitude_order, lemma_magnitude_parts, lemma_pow2_monotone,
    lemma_round_at_least, lemma_round_at_most, lemma_round_inexact, lemma_round_scale,
    magnitude_value, power_of_two, round_magnitude, round_scaled, scaled_den, scaled_num,
    EXPONENT_STEP, INFINITE,
};
use core::ops::{Add, Div, Mul, Neg, Sub};
use vstd::arithmetic::div_mod::lemma_fundamental_div_mod;
use vstd::arithmetic::power2::{
    lemma2_to64, lemma_pow2_adds, lemma_pow2_pos, lemma_pow2_unfold, pow2,
};
use vstd::prelude::*;
use vstd::std_specs::ops::{AddSpecImpl, DivSpecImpl, MulSpecImpl, NegSpecImpl, SubSpecImpl};

verus! {

/// The sign bit.
pub const SIGN: u32 = 0x8000_0000;

/// The quiet NaN that invalid operations give.
pub const QUIET_NAN: u32 = 0x7fc0_0000;

/// A single precision number as its bit pattern.
#[derive(Clone, Copy, Debug)]
pub struct Binary32 {
    /// The interchange pattern.
    pub bits: u32,
}

/// The number with the given pattern.
pub open spec fn lit(bits: u32) -> Binary32 {
    Binary32 { bits }
}

/// The number with the given sign and magnitude pattern.
pub open spec fn signed(negative: bool, magnitude: nat) -> Binary32 {
    Binary32 {
        bits: (if negative {
            SIGN + magnitude
        } else {
            magnitude as int
        }) as u32,
    }
}

/// The absolute value of an integer.
pub open spec fn size(v: int) -> nat {
    if v < 0 {
        (-v) as nat
    } else {
        v as nat
    }
}

/// The greatest integer whose square is at most `x`.
pub open spec fn floor_root(x: nat) -> nat
    decreases x,
{
    if x == 0 {
        0
    } else {
        let r = floor_root((x - 1) as nat);
        if (r + 1) * (r + 1) <= x {
            r + 1
        } else {
            r
        }
    }
}

/// The magnitude pattern nearest to the square root of `x` units. A root that is no integer is
/// half way between two integers as far as rounding is concerned: the roots that occur are so
/// large that no rounding boundary lies strictly between neighbouring integers. That the outcome is
/// the nearest number is shown in [`law_root_nearest`].
pub open spec fn round_root(x: nat) -> nat {
    let r = floor_root(x);
    if r * r == x {
        round_magnitude(r, 1)
    } else {
        round_magnitude(2 * r + 1, 2)
    }
}

impl Binary32 {
    /// Whether the sign bit is set.
    pub open spec fn negative(self) -> bool {
        self.bits >= 0x8000_0000
    }

    /// The pattern without its sign bit.
    pub open spec fn magnitude(self) -> nat {
        (self.bits % 0x8000_0000) as nat
    }

    /// Whether the pattern is one of a NaN.
    pub open spec fn nan(self) -> bool {
        self.magnitude() > 0x7f80_0000
    }

    /// Whether the pattern is one of an infinity.
    pub open spec fn infinite(self) -> bool {
        self.magnitude() == 0x7f80_0000
    }

    /// Whether the pattern is one of a finite number.
    pub open spec fn finite(self) -> bool {
        self.magnitude() < 0x7f80_0000
    }

    /// The exact value of a finite number, in units of the least positive number, which is two to
    /// the power -149.
    pub open spec fn value(self) -> int {
        if self.negative() {
            -(magnitude_value(self.magnitude()) as int)
        } else {
            magnitude_value(self.magnitude()) as int
        }
    }

    /// The place of a number that is no NaN in the order of numbers; both zeros have place zero.
    pub open spec fn rank(self) -> int {
        if self.negative() {
            -(self.magnitude() as int)
        } else {
            self.magnitude() as int
        }
    }

    /// `self < other`; false where either is a NaN.
    pub open spec fn less(self, other: Binary32) -> bool {
        !self.nan() && !other.nan() && self.rank() < other.rank()
    }

    /// `self <= other`; false where either is a NaN.
    pub open spec fn at_most(self, other: Binary32) -> bool {
        !self.nan() && !other.nan() && self.rank() <= other.rank()
    }

    /// `self == other` as numbers; false where either is a NaN.
    pub open spec fn same(self, other: Binary32) -> bool {
        !self.nan() && !other.nan() && self.rank() == other.rank()
    }

    /// The number with the opposite sign.
    pub open spec fn negated(self) -> Binary32 {
        signed(!self.negative(), self.magnitude())
    }

    /// The number without its sign.
    pub open spec fn unsigned(self) -> Binary32 {
        signed(false, self.magnitude())
    }

    /// The rounded sum.
    #[verifier::opaque]
    pub open spec fn plus(self, other: Binary32) -> Binary32 {
        let s = self.value() + other.value();
        if self.nan() || other.nan() {
            lit(QUIET_NAN)
        } else if self.infinite() {
            if other.infinite() && self.negative() != other.negative() {
                lit(QUIET_NAN)
            } else {
                self
            }
        } else if other.infinite() {
            other
        } else if s == 0 {
            signed(self.negative() && other.negative(), 0)
        } else {
            signed(s < 0, round_magnitude(size(s), 1))
        }
    }

    /// The rounded difference.
    pub open spec fn minus(self, other: Binary32) -> Binary32 {
        self.plus(other.negated())
    }

    /// The rounded product.
    #[verifier::opaque]
    pub open spec fn times(self, other: Binary32) -> Binary32 {
        let negative = self.negative() != other.negative();
        if self.nan() || other.nan() {
            lit(QUIET_NAN)
        } else if self.infinite() || other.infinite() {
            if self.magnitude() == 0 || other.magnitude() == 0 {
                lit(QUIET_NAN)
            } else {
                signed(negative, INFINITE as nat)
            }
        } else {
            signed(
                negative,
                round_magnitude(size(self.value()) * size(other.value()), pow2(149)),
            )
        }
    }

    /// The rounded quotient.
    #[verifier::opaque]
    pub open spec fn over(self, other: Binary32) -> Binary32 {
        let negative = self.negative() != other.negative();
        if self.nan() || other.nan() {
            lit(QUIET_NAN)
        } else if self.infinite() {
            if other.infinite() {
                lit(QUIET_NAN)
            } else {
                signed(negative, INFINITE as nat)
            }
        } else if other.infinite() {
            signed(negative, 0)
        } else if other.magnitude() == 0 {
            if self.magnitude() == 0 {
                lit(QUIET_NAN)
            } else {
                signed(negative, INFINITE as nat)
            }
        } else {
            signed(
                negative,
                round_magnitude(size(self.value()) * pow2(149), size(other.value())),
            )
        }
    }

    /// The rounded square root.
    #[verifier::opaque]
    pub open spec fn root(self) -> Binary32 {
        if self.nan() {
            lit(QUIET_NAN)
        } else if self.magnitude() == 0 {
            self
        } else if self.negative() {
            lit(QUIET_NAN)
        } else if self.infinite() {
            self
        } else {
            signed(false, round_root(size(self.value()) * pow2(149)))
        }
    }

    /// The integer part, clamped to what 32 bits hold; zero for a NaN and for negative numbers.
    pub open spec fn whole(self) -> u32 {
        if self.nan() || self.negative() {
            0
        } else if self.infinite() {
            u32::MAX
        } else {
            let w = size(self.value()) / pow2(149);
            if w < u32::MAX {
                w as u32
            } else {
                u32::MAX
            }
        }
    }

    /// The number with the given pattern.
    pub fn from_bits(bits: u32) -> (r: Binary32)
        ensures
            r == lit(bits),
    {
        Binary32 { bits }
    }

    /// The pattern of the number.
    pub fn to_bits(self) -> (bits: u32)
        ensures
            bits == self.bits,
    {
        self.bits
    }

    /// Whether the sign bit is set.
    pub fn is_negative(self) -> (r: bool)
        ensures
            r == self.negative(),
    {
        self.bits >= SIGN
    }

    /// Whether the number is a NaN.
    pub fn is_nan(self) -> (r: bool)
        ensures
            r == self.nan(),
    {
        self.bits % SIGN > INFINITE
    }

    /// Whether the number is neither a NaN nor an infinity.
    pub fn is_finite(self) -> (r: bool)
        ensures
            r == self.finite(),
    {
        self.bits % SIGN < INFINITE
    }

    /// The signed place of a number in the order of numbers.
    fn order_rank(self) -> (r: i64)
        ensures
            r == self.rank(),
            -0x8000_0000 < r < 0x8000_0000,
    {
        let magnitude: i64 = (self.bits % SIGN) as i64;
        if self.bits >= SIGN {
            -magnitude
        } else {
            magnitude
        }
    }

    /// `self < other`; false where either is a NaN.
    pub fn lt(self, other: Binary32) -> (r: bool)
        ensures
            r == self.less(other),
    {
        !self.is_nan() && !other.is_nan() && self.order_rank() < other.order_rank()
    }

    /// `self <= other`; false where either is a NaN.
    pub fn le(self, other: Binary32) -> (r: bool)
        ensures
            r == self.at_most(other),
    {
        !self.is_nan() && !other.is_nan() && self.order_rank() <= other.order_rank()
    }

    /// `self == other` as numbers, so that both zeros are equal and a NaN equals nothing.
    pub fn equals(self, other: Binary32) -> (r: bool)
        ensures
            r == self.same(other),
    {
        !self.is_nan() && !other.is_nan() && self.order_rank() == other.order_rank()
    }

    /// The number without its sign.
    pub fn abs(self) -> (r: Binary32)
        ensures
            r == self.unsigned(),
    {
        Binary32 { bits: self.bits % SIGN }
    }
}

/// The number with the given sign and magnitude pattern.
fn with_sign(negative: bool, magnitude: u32) -> (r: Binary32)
    requires
        magnitude < 0x8000_0000,
    ensures
        r == signed(negative, magnitude as nat),
{
    if negative {
        Binary32 { bits: SIGN + magnitude }
    } else {
        Binary32 { bits: magnitude }
    }
}

impl Neg for Binary32 {
    type Output = Binary32;

    fn neg(self) -> (r: Binary32) {
        with_sign(!self.is_negative(), self.bits % SIGN)
    }
}

impl NegSpecImpl for Binary32 {
    open spec fn obeys_neg_spec() -> bool {
        true
    }

    open spec fn neg_req(self) -> bool {
        true
    }

    open spec fn neg_spec(self) -> Binary32 {
        self.negated()
    }
}

/// The significand and the exponent of a finite number.
fn parts(x: Binary32) -> (r: (u32, u32))
    requires
        x.finite(),
    ensures
        size(x.value()) == r.0 * pow2(r.1 as nat),
        r.0 < 0x100_0000,
        r.1 <= 253,
        r.1 > 0 ==> r.0 >= 0x80_0000,
        r.0 == 0 <==> x.magnitude() == 0,
{
    let magnitude: u32 = x.bits % SIGN;
    let exponent: u32 = magnitude / EXPONENT_STEP;
    let fraction: u32 = magnitude % EXPONENT_STEP;
    if exponent == 0 {
        proof {
            lemma2_to64();
            assert(fraction * pow2(0) == fraction);
        }
        (fraction, 0)
    } else {
        (fraction + EXPONENT_STEP, exponent - 1)
    }
}

/// A scaled integer rounds as the quotient does that it is equal to.
proof fn lemma_round_scaled_equal(n: nat, d: nat, m: nat, s: int)
    requires
        d > 0,
        n * scaled_den(s) == m * scaled_num(1, s) * d,
    ensures
        round_magnitude(n, d) == round_magnitude(scaled_num(m, s), scaled_den(s)),
{
    let a = scaled_num(1, s);
    let b = scaled_den(s);
    assert(b > 0) by {
        if s < 0 {
            lemma_pow2_pos((-s) as nat);
        }
    }
    assert(scaled_num(m, s) == m * a) by {
        if s >= 0 {
            assert(1 * pow2(s as nat) == pow2(s as nat));
        }
    }
    lemma_round_scale(n, d, b);
    lemma_round_scale(m * a, b, d);
    assert(d * b == b * d) by (nonlinear_arith);
}

/// The two terms of a power of two with a signed exponent.
proof fn lemma_scaled_one(s: int, low: nat, high: nat)
    requires
        s == high - low,
    ensures
        scaled_num(1, s) * pow2(low) == scaled_den(s) * pow2(high),
        scaled_num(1, s) > 0,
        scaled_den(s) > 0,
{
    if s >= 0 {
        lemma_pow2_pos(s as nat);
        assert(1 * pow2(s as nat) == pow2(s as nat));
        lemma_pow2_adds(s as nat, low);
        assert(1 * pow2(high) == pow2(high));
    } else {
        lemma_pow2_pos((-s) as nat);
        lemma_pow2_adds((-s) as nat, high);
        assert(1 * pow2(low) == pow2(low));
    }
}

/// Integers below two to the power `k` are below two to the hundredth.
proof fn lemma_below_pow2_100(m: nat, k: nat)
    requires
        m <= pow2(k),
        k < 100,
    ensures
        m < pow2(100),
{
    lemma_pow2_monotone(k, 99);
    lemma_pow2_unfold(100);
    lemma_pow2_pos(99);
}

impl Mul for Binary32 {
    type Output = Binary32;

    fn mul(self, rhs: Binary32) -> (r: Binary32) {
        proof {
            reveal(Binary32::times);
        }
        if self.is_nan() || rhs.is_nan() {
            return Binary32 { bits: QUIET_NAN };
        }
        let negative: bool = self.is_negative() != rhs.is_negative();
        if !self.is_finite() || !rhs.is_finite() {
            if self.bits % SIGN == 0 || rhs.bits % SIGN == 0 {
                return Binary32 { bits: QUIET_NAN };
            }
            return with_sign(negative, INFINITE);
        }
        let (a, ea) = parts(self);
        let (b, eb) = parts(rhs);
        proof {
            assert(a * b <= 0x100_0000 * 0x100_0000) by (nonlinear_arith)
                requires
                    0 <= a <= 0x100_0000,
                    0 <= b <= 0x100_0000,
            ;
            lemma2_to64();
            lemma_pow2_adds(24, 24);
            lemma_below_pow2_100((a * b) as nat, 48);
        }
        let m: u128 = a as u128 * b as u128;
        let s: i32 = ea as i32 + eb as i32 - 149;
        proof {
            let n = size(self.value()) * size(rhs.value());
            let pa = pow2(ea as nat);
            let pb = pow2(eb as nat);
            lemma_pow2_adds(ea as nat, eb as nat);
            lemma_pow2_pos(149);
            lemma_scaled_one(s as int, 149, (ea + eb) as nat);
            let x = scaled_num(1, s as int);
            let y = scaled_den(s as int);
            assert(n * y == m * x * pow2(149)) by (nonlinear_arith)
                requires
                    n == (a * pa) * (b * pb),
                    m == a * b,
                    x * pow2(149) == y * (pa * pb),
            ;
            lemma_round_scaled_equal(n, pow2(149), m as nat, s as int);
        }
        with_sign(negative, round_scaled(m, s))
    }
}

impl MulSpecImpl for Binary32 {
    open spec fn obeys_mul_spec() -> bool {
        true
    }

    open spec fn mul_req(self, rhs: Binary32) -> bool {
        true
    }

    open spec fn mul_spec(self, rhs: Binary32) -> Binary32 {
        self.times(rhs)
    }
}

impl Div for Binary32 {
    type Output = Binary32;

    fn div(self, rhs: Binary32) -> (r: Binary32) {
        proof {
            reveal(Binary32::over);
        }
        if self.is_nan() || rhs.is_nan() {
            return Binary32 { bits: QUIET_NAN };
        }
        let negative: bool = self.is_negative() != rhs.is_negative();
        if !self.is_finite() {
            if !rhs.is_finite() {
                return Binary32 { bits: QUIET_NAN };
            }
            return with_sign(negative, INFINITE);
        }
        if !rhs.is_finite() {
            return with_sign(negative, 0);
        }
        let (a, ea) = parts(self);
        let (b, eb) = parts(rhs);
        if b == 0 {
            if a == 0 {
                return Binary32 { bits: QUIET_NAN };
            }
            return with_sign(negative, INFINITE);
        }
        // Enough digits for a quotient that is longer than the significand.
        let num: u128 = a as u128 * 0x10_0000_0000_0000;
        let den: u128 = b as u128;
        let q: u128 = num / den;
        let rem: u128 = num % den;
        let s: i32 = ea as i32 - eb as i32 + 97;
        let j: u128 = if rem != 0 && q % 2 == 0 {
            q + 1
        } else {
            q
        };
        proof {
            lemma2_to64();
            lemma_fundamental_div_mod(num as int, den as int);
            assert(q <= num) by (nonlinear_arith)
                requires
                    num == den * q + rem,
                    den > 0,
                    rem >= 0,
                    q >= 0,
            ;
            lemma_pow2_adds(24, 24);
            lemma_pow2_adds(48, 30);
            lemma_below_pow2_100(j as nat, 78);
            lemma_quotient(
                a as nat,
                ea as nat,
                b as nat,
                eb as nat,
                q as nat,
                rem as nat,
                j as nat,
            );
        }
        with_sign(negative, round_scaled(j, s))
    }
}

/// The digits of a long division, with the last one odd where the division goes on, round as the
/// exact quotient does.
proof fn lemma_quotient(a: nat, ea: nat, b: nat, eb: nat, q: nat, rem: nat, j: nat)
    requires
        a < 0x100_0000,
        0 < b < 0x100_0000,
        a * 0x10_0000_0000_0000 == b * q + rem,
        rem < b,
        j == if rem != 0 && q % 2 == 0 {
            q + 1
        } else {
            q
        },
    ensures
        round_magnitude((a * pow2(ea)) * pow2(149), b * pow2(eb)) == round_magnitude(
            scaled_num(j, ea - eb + 97),
            scaled_den(ea - eb + 97),
        ),
{
    lemma2_to64();
    let s = ea - eb + 97;
    let n = (a * pow2(ea)) * pow2(149);
    let d = b * pow2(eb);
    let x = scaled_num(1, s);
    let y = scaled_den(s);
    lemma_scaled_one(s, eb, ea + 97);
    lemma_pow2_pos(eb);
    lemma_pow2_adds(ea, 97);
    lemma_pow2_adds(52, 97);
    lemma_pow2_adds(32, 20);
    let pa = pow2(ea);
    let p97 = pow2(97);
    // Both sides of the division scaled by the same power.
    let k = x * pow2(eb);
    assert(k > 0) by (nonlinear_arith)
        requires
            k == x * pow2(eb),
            x > 0,
            pow2(eb) > 0,
    ;
    assert(d > 0) by (nonlinear_arith)
        requires
            d == b * pow2(eb),
            b > 0,
            pow2(eb) > 0,
    ;
    assert(n * y == (b * q + rem) * k) by (nonlinear_arith)
        requires
            n == (a * pa) * pow2(149),
            pow2(149) == 0x10_0000_0000_0000 * p97,
            a * 0x10_0000_0000_0000 == b * q + rem,
            k == y * (pa * p97),
    ;
    assert(q * x * d == (b * q) * k) by (nonlinear_arith)
        requires
            d == b * pow2(eb),
            k == x * pow2(eb),
    ;
    if rem == 0 {
        lemma_round_scaled_equal(n, d, q, s);
    } else {
        assert(q * x * d < n * y) by (nonlinear_arith)
            requires
                q * x * d == (b * q) * k,
                n * y == (b * q + rem) * k,
                rem > 0,
                k > 0,
        ;
        assert(n * y < (q + 1) * x * d) by (nonlinear_arith)
            requires
                n * y == (b * q + rem) * k,
                d == b * pow2(eb),
                k == x * pow2(eb),
                rem < b,
                k > 0,
        ;
        assert(q >= 0x400_0000) by (nonlinear_arith)
            requires
                a * 0x10_0000_0000_0000 == b * q + rem,
                a > 0,
                rem < b,
                b < 0x100_0000,
        {
            if q < 0x400_0000 {
                assert(b * q + rem < 0x100_0000 * 0x400_0000 + 0x100_0000);
            }
        }
        lemma_round_inexact(n, d, q, j, s);
    }
}

impl DivSpecImpl for Binary32 {
    open spec fn obeys_div_spec() -> bool {
        true
    }

    open spec fn div_req(self, rhs: Binary32) -> bool {
        true
    }

    open spec fn div_spec(self, rhs: Binary32) -> Binary32 {
        self.over(rhs)
    }
}

/// The rounded signed sum of two finite numbers given by sign, significand and exponent, the
/// first with the greater exponent.
fn add_parts(
    negative_a: bool,
    a: u32,
    ea: u32,
    negative_b: bool,
    b: u32,
    eb: u32,
) -> (r: Binary32)
    requires
        eb <= ea <= 253,
        a < 0x100_0000,
        b < 0x100_0000,
        ea > 0 ==> a >= 0x80_0000,
    ensures
        ({
            let va = signed_value(negative_a, a as nat, ea as nat);
            let vb = signed_value(negative_b, b as nat, eb as nat);
            r == if va + vb == 0 {
                signed(negative_a && negative_b, 0)
            } else {
                signed(va + vb < 0, round_magnitude(size(va + vb), 1))
            }
        }),
{
    let ghost pb = pow2(eb as nat);
    let ghost va = signed_value(negative_a, a as nat, ea as nat);
    let ghost vb = signed_value(negative_b, b as nat, eb as nat);
    proof {
        lemma2_to64();
        lemma_pow2_pos(eb as nat);
        lemma_pow2_pos(ea as nat);
    }
    if ea - eb <= 64 {
        let k: u32 = ea - eb;
        proof {
            lemma_pow2_monotone(k as nat, 64);
            lemma_pow2_pos(k as nat);
            lemma_pow2_adds(k as nat, eb as nat);
            lemma_pow2_adds(24, 64);
            lemma_pow2_unfold(89);
            let p = pow2(k as nat);
            assert(0 <= a * p <= 0x100_0000 * pow2(64)) by (nonlinear_arith)
                requires
                    0 <= a <= 0x100_0000,
                    0 < p <= pow2(64),
            ;
            lemma_below_pow2_100((a * p + b) as nat, 89);
            assert((a * p) * pb == a * pow2(ea as nat)) by (nonlinear_arith)
                requires
                    pow2(ea as nat) == p * pb,
            ;
        }
        let x: u128 = a as u128 * power_of_two(k);
        let y: u128 = b as u128;
        let (negative, t): (bool, u128) = if negative_a == negative_b {
            (negative_a, x + y)
        } else if x >= y {
            (negative_a, x - y)
        } else {
            (negative_b, y - x)
        };
        proof {
            assert((x + y) * pb == x * pb + y * pb) by (nonlinear_arith);
            assert((x - y) * pb == x * pb - y * pb) by (nonlinear_arith);
            assert((y - x) * pb == y * pb - x * pb) by (nonlinear_arith);
            assert(size(va + vb) == t * pb);
            assert((t * pb == 0) == (t == 0)) by (nonlinear_arith)
                requires
                    pb > 0,
                    t >= 0,
            ;
        }
        if t == 0 {
            proof {
                if negative_a == negative_b {
                    assert(va + vb == 0);
                }
            }
            return with_sign(negative_a && negative_b, 0);
        }
        proof {
            lemma_round_scaled_whole(t as nat, eb as nat);
        }
        return with_sign(negative, round_scaled(t, eb as i32));
    }
    // The second term lies wholly below the digits that decide the rounding.
    proof {
        lemma_far_sum(a as nat, ea as nat, b as nat, eb as nat);
    }
    if b == 0 {
        proof {
            lemma_round_scaled_whole(a as nat, ea as nat);
            lemma_below_pow2_100(a as nat, 24);
            assert(b * pow2(eb as nat) == 0) by (nonlinear_arith)
                requires
                    b == 0,
            ;
        }
        return with_sign(negative_a, round_scaled(a as u128, ea as i32));
    }
    let base: u128 = a as u128 * 0x1_0000_0000;
    let j: u128 = if negative_a == negative_b {
        base + 1
    } else {
        base - 1
    };
    proof {
        lemma_pow2_adds(24, 32);
        lemma_pow2_unfold(57);
        lemma_below_pow2_100(j as nat, 57);
    }
    with_sign(negative_a, round_scaled(j, ea as i32 - 32))
}

/// The exact value of a sign, a significand and an exponent.
spec fn signed_value(negative: bool, m: nat, e: nat) -> int {
    if negative {
        -((m * pow2(e)) as int)
    } else {
        (m * pow2(e)) as int
    }
}

/// A scaled integer without a denominator.
proof fn lemma_round_scaled_whole(m: nat, e: nat)
    ensures
        scaled_num(m, e as int) == m * pow2(e),
        scaled_den(e as int) == 1,
{
}

/// A term that is far below the other one moves the sum strictly off the greater term, by less
/// than a step of the grid on which the sum is rounded.
proof fn lemma_far_sum(a: nat, ea: nat, b: nat, eb: nat)
    requires
        0x80_0000 <= a < 0x100_0000,
        b < 0x100_0000,
        ea > eb + 64,
    ensures
        b * pow2(eb) < a * pow2(ea),
        b > 0 ==> 0 < b * pow2(eb),
        b > 0 ==> round_magnitude(a * pow2(ea) + b * pow2(eb), 1) == round_magnitude(
            scaled_num(a * 0x1_0000_0000 + 1, ea - 32),
            scaled_den(ea - 32),
        ),
        b > 0 ==> round_magnitude((a * pow2(ea) - b * pow2(eb)) as nat, 1) == round_magnitude(
            scaled_num((a * 0x1_0000_0000 - 1) as nat, ea - 32),
            scaled_den(ea - 32),
        ),
{
    lemma2_to64();
    let s = (ea - 32) as nat;
    let g = pow2(s);
    lemma_pow2_pos(s);
    lemma_pow2_adds(s, 32);
    assert(s + 32 == ea);
    lemma_pow2_pos(eb);
    lemma_pow2_adds(24, eb);
    lemma_pow2_monotone(24 + eb, s);
    let low = b * pow2(eb);
    let high = a * pow2(ea);
    assert(low < g) by (nonlinear_arith)
        requires
            low == b * pow2(eb),
            b < 0x100_0000,
            0x100_0000 * pow2(eb) <= g,
            pow2(eb) > 0,
    ;
    assert(high == (a * 0x1_0000_0000) * g) by (nonlinear_arith)
        requires
            high == a * pow2(ea),
            pow2(ea) == g * 0x1_0000_0000,
    ;
    let base = a * 0x1_0000_0000;
    assert(base * g >= g) by (nonlinear_arith)
        requires
            base >= 1,
            g > 0,
    ;
    if b > 0 {
        assert(low > 0) by (nonlinear_arith)
            requires
                low == b * pow2(eb),
                b > 0,
                pow2(eb) > 0,
        ;
        assert(1 * pow2(s) == g);
        assert((base + 1) * g == base * g + g) by (nonlinear_arith);
        assert((base - 1) * g == base * g - g) by (nonlinear_arith);
        let q = (base - 1) as nat;
        assert(base * g * 1 == base * g);
        assert((base + 1) * g * 1 == base * g + g);
        assert(q * g * 1 == base * g - g);
        assert((q + 1) * g * 1 == base * g);
        assert(scaled_num(1, s as int) == g);
        assert((high + low) * scaled_den(s as int) == base * g + low);
        assert(base * scaled_num(1, s as int) * 1 < (high + low) * scaled_den(s as int));
        assert((high + low) * scaled_den(s as int) < (base + 1) * scaled_num(1, s as int) * 1);
        lemma_round_inexact(high + low, 1, base, base + 1, s as int);
        lemma_round_inexact((high - low) as nat, 1, q, q, s as int);
    }
}

impl Add for Binary32 {
    type Output = Binary32;

    fn add(self, rhs: Binary32) -> (r: Binary32) {
        proof {
            reveal(Binary32::plus);
        }
        if self.is_nan() || rhs.is_nan() {
            return Binary32 { bits: QUIET_NAN };
        }
        if !self.is_finite() {
            if !rhs.is_finite() && self.is_negative() != rhs.is_negative() {
                return Binary32 { bits: QUIET_NAN };
            }
            return self;
        }
        if !rhs.is_finite() {
            return rhs;
        }
        let (a, ea) = parts(self);
        let (b, eb) = parts(rhs);
        if ea >= eb {
            add_parts(self.is_negative(), a, ea, rhs.is_negative(), b, eb)
        } else {
            add_parts(rhs.is_negative(), b, eb, self.is_negative(), a, ea)
        }
    }
}

impl AddSpecImpl for Binary32 {
    open spec fn obeys_add_spec() -> bool {
        true
    }

    open spec fn add_req(self, rhs: Binary32) -> bool {
        true
    }

    open spec fn add_spec(self, rhs: Binary32) -> Binary32 {
        self.plus(rhs)
    }
}

impl Sub for Binary32 {
    type Output = Binary32;

    fn sub(self, rhs: Binary32) -> (r: Binary32) {
        self + rhs.neg()
    }
}

impl SubSpecImpl for Binary32 {
    open spec fn obeys_sub_spec() -> bool {
        true
    }

    open spec fn sub_req(self, rhs: Binary32) -> bool {
        true
    }

    open spec fn sub_spec(self, rhs: Binary32) -> Binary32 {
        self.minus(rhs)
    }
}

/// What characterises the integer root.
pub proof fn lemma_floor_root(x: nat)
    ensures
        floor_root(x) * floor_root(x) <= x,
        x < (floor_root(x) + 1) * (floor_root(x) + 1),
    decreases x,
{
    let f = floor_root(x);
    if x == 0 {
        assert(f * f == 0 && (f + 1) * (f + 1) == 1) by (nonlinear_arith)
            requires
                f == 0,
        ;
    } else {
        lemma_floor_root((x - 1) as nat);
        let r = floor_root((x - 1) as nat);
        if (r + 1) * (r + 1) <= x {
            assert((f + 1) * (f + 1) == f * f + 2 * f + 1 && f * f == (r + 1) * (r + 1))
                by (nonlinear_arith)
                requires
                    f == r + 1,
            ;
        }
    }
}

/// The integer root.
fn whole_root(x: u128) -> (r: u64)
    requires
        x < 0x40_0000_0000_0000_0000_0000,
    ensures
        r * r <= x < (r + 1) * (r + 1),
        r < 0x800_0000_0000,
{
    let mut low: u64 = 0;
    let mut high: u64 = 0x800_0000_0000;
    while high - low > 1
        invariant
            low < high <= 0x800_0000_0000,
            low * low <= x < high * high,
        decreases high - low,
    {
        let mid: u64 = low + (high - low) / 2;
        proof {
            assert(mid * mid < 0x40_0000_0000_0000_0000_0000) by (nonlinear_arith)
                requires
                    0 <= mid < 0x800_0000_0000,
            ;
        }
        if mid as u128 * mid as u128 <= x {
            low = mid;
        } else {
            high = mid;
        }
    }
    low
}

/// The digits of a root, with the last one odd where the root goes on, round as the exact root
/// does.
proof fn lemma_root(x: nat, m: nat, h: nat, q: nat, j: nat)
    requires
        x == m * (pow2(h) * pow2(h)),
        q * q <= m < (q + 1) * (q + 1),
        q >= 0x400_0000,
        j == if q * q != m && q % 2 == 0 {
            q + 1
        } else {
            q
        },
    ensures
        round_root(x) == round_magnitude(scaled_num(j, h as int), scaled_den(h as int)),
{
    let g = pow2(h);
    lemma_pow2_pos(h);
    let r = floor_root(x);
    lemma_floor_root(x);
    let qg = q * g;
    let ng = (q + 1) * g;
    assert(qg * qg == (q * q) * (g * g)) by (nonlinear_arith)
        requires
            qg == q * g,
    ;
    assert(ng * ng == ((q + 1) * (q + 1)) * (g * g)) by (nonlinear_arith)
        requires
            ng == (q + 1) * g,
    ;
    let gg = g * g;
    assert(gg > 0) by (nonlinear_arith)
        requires
            gg == g * g,
            g > 0,
    ;
    assert(qg * qg <= x) by (nonlinear_arith)
        requires
            qg * qg == (q * q) * gg,
            x == m * gg,
            q * q <= m,
            gg > 0,
    ;
    assert(x < ng * ng) by (nonlinear_arith)
        requires
            ng * ng == ((q + 1) * (q + 1)) * gg,
            x == m * gg,
            m < (q + 1) * (q + 1),
            gg > 0,
    ;
    assert(qg <= r) by (nonlinear_arith)
        requires
            qg * qg <= x,
            x < (r + 1) * (r + 1),
            qg >= 0,
            r >= 0,
    ;
    assert(r < ng) by (nonlinear_arith)
        requires
            x < ng * ng,
            r * r <= x,
            ng >= 0,
            r >= 0,
    ;
    assert(1 * g == g);
    if q * q == m {
        assert(qg * qg == x);
        assert(r == qg) by (nonlinear_arith)
            requires
                qg * qg == x,
                r * r <= x,
                qg <= r,
                qg >= 0,
        ;
        assert(scaled_num(q, h as int) == qg);
    } else {
        assert(qg * qg < x) by (nonlinear_arith)
            requires
                qg * qg == (q * q) * gg,
                x == m * gg,
                q * q < m,
                gg > 0,
        ;
        if r * r == x {
            assert(qg < r);
            assert(q * g * 1 == qg);
            assert((q + 1) * g * 1 == ng);
            assert(r * 1 == r);
            lemma_round_inexact(r, 1, q, j, h as int);
        } else {
            let n = 2 * r + 1;
            assert(q * g * 2 == 2 * qg);
            assert((q + 1) * g * 2 == 2 * ng);
            assert(n * 1 == n);
            lemma_round_inexact(n, 2, q, j, h as int);
        }
    }
}

impl Binary32 {
    /// The rounded square root.
    pub fn sqrt(self) -> (r: Binary32)
        ensures
            r == self.root(),
    {
        proof {
            reveal(Binary32::root);
        }
        if self.is_nan() {
            return Binary32 { bits: QUIET_NAN };
        }
        if self.bits % SIGN == 0 {
            return self;
        }
        if self.is_negative() {
            return Binary32 { bits: QUIET_NAN };
        }
        if !self.is_finite() {
            return self;
        }
        let (a, ea) = parts(self);
        // Enough digits for a root that is longer than the significand, and an even exponent left.
        let t: u32 = ea + 149;
        let p: u32 = if t % 2 == 0 {
            60
        } else {
            61
        };
        proof {
            lemma2_to64();
            lemma_pow2_adds(30, 30);
            lemma_pow2_unfold(61);
            let pp = pow2(p as nat);
            assert(0x1000_0000_0000_0000 <= a * pp <= 0x100_0000 * 0x2000_0000_0000_0000)
                by (nonlinear_arith)
                requires
                    1 <= a <= 0x100_0000,
                    0x1000_0000_0000_0000 <= pp <= 0x2000_0000_0000_0000,
            ;
        }
        let m: u128 = a as u128 * power_of_two(p);
        let q: u64 = whole_root(m);
        let j: u64 = if q as u128 * q as u128 != m && q % 2 == 0 {
            q + 1
        } else {
            q
        };
        let h: u32 = (t - p) / 2;
        proof {
            assert(q >= 0x400_0000) by (nonlinear_arith)
                requires
                    m < (q + 1) * (q + 1),
                    m >= 0x1000_0000_0000_0000,
                    q >= 0,
            ;
            let g = pow2(h as nat);
            let pp = pow2(p as nat);
            lemma_pow2_adds(h as nat, h as nat);
            lemma_pow2_adds(p as nat, (h + h) as nat);
            lemma_pow2_adds(ea as nat, 149);
            let x = size(self.value()) * pow2(149);
            assert(x == m * (g * g)) by (nonlinear_arith)
                requires
                    x == (a * pow2(ea as nat)) * pow2(149),
                    m == a * pp,
                    pow2(ea as nat) * pow2(149) == pp * (g * g),
            ;
            lemma_root(x, m as nat, h as nat, q as nat, j as nat);
            lemma_pow2_unfold(44);
            lemma_pow2_adds(30, 14);
            lemma_below_pow2_100(j as nat, 44);
        }
        with_sign(false, round_scaled(j as u128, h as i32))
    }

    /// The integer part, clamped to what 32 bits hold; zero for a NaN and for negative numbers.
    pub fn trunc_u32(self) -> (r: u32)
        ensures
            r == self.whole(),
    {
        if self.is_nan() || self.is_negative() {
            return 0;
        }
        if !self.is_finite() {
            return u32::MAX;
        }
        let (a, ea) = parts(self);
        proof {
            lemma2_to64();
            lemma_pow2_pos(149);
            lemma_pow2_pos(ea as nat);
        }
        if ea >= 149 {
            let k: u32 = ea - 149;
            proof {
                lemma_pow2_adds(k as nat, 149);
                lemma_pow2_pos(k as nat);
                let p = pow2(k as nat);
                let b = pow2(149);
                assert(a * (p * b) == (a * p) * b) by (nonlinear_arith);
                vstd::arithmetic::div_mod::lemma_fundamental_div_mod_converse(
                    ((a * p) * b) as int,
                    b as int,
                    (a * p) as int,
                    0,
                );
                if k >= 32 {
                    lemma_pow2_monotone(32, k as nat);
                    assert(a * p >= 0x1_0000_0000) by (nonlinear_arith)
                        requires
                            a >= 1,
                            p >= 0x1_0000_0000,
                    ;
                } else {
                    lemma_pow2_monotone(k as nat, 32);
                    assert(0 <= a * p <= 0x100_0000 * 0x1_0000_0000) by (nonlinear_arith)
                        requires
                            0 <= a <= 0x100_0000,
                            0 < p <= 0x1_0000_0000,
                    ;
                }
            }
            if k >= 32 {
                return u32::MAX;
            }
            let w: u128 = a as u128 * power_of_two(k);
            if w < u32::MAX as u128 {
                w as u32
            } else {
                u32::MAX
            }
        } else {
            let k: u32 = 149 - ea;
            proof {
                lemma_pow2_adds(k as nat, ea as nat);
                lemma_pow2_pos(k as nat);
                vstd::arithmetic::div_mod::lemma_div_denominator(
                    (a * pow2(ea as nat)) as int,
                    pow2(ea as nat) as int,
                    pow2(k as nat) as int,
                );
                vstd::arithmetic::div_mod::lemma_div_by_multiple(
                    a as int,
                    pow2(ea as nat) as int,
                );
                assert(pow2(ea as nat) * pow2(k as nat) == pow2(149)) by (nonlinear_arith)
                    requires
                        pow2(149) == pow2(k as nat) * pow2(ea as nat),
                ;
                lemma_fundamental_div_mod(a as int, pow2(k as nat) as int);
                if k >= 24 {
                    lemma_pow2_monotone(24, k as nat);
                    vstd::arithmetic::div_mod::lemma_fundamental_div_mod_converse(
                        a as int,
                        pow2(k as nat) as int,
                        0,
                        a as int,
                    );
                } else {
                    assert(a as int / pow2(k as nat) as int <= a) by (nonlinear_arith)
                        requires
                            pow2(k as nat) >= 1,
                            a >= 0,
                    ;
                }
            }
            if k >= 24 {
                return 0;
            }
            (a as u128 / power_of_two(k)) as u32
        }
    }
}

/// Among finite numbers the order is that of the exact values.
pub proof fn law_order_of_values(a: Binary32, b: Binary32)
    requires
        a.finite(),
        b.finite(),
    ensures
        a.less(b) == (a.value() < b.value()),
        a.at_most(b) == (a.value() <= b.value()),
        a.same(b) == (a.value() == b.value()),
{
    lemma_magnitude_order(a.magnitude(), b.magnitude());
    lemma_magnitude_order(b.magnitude(), a.magnitude());
    lemma_magnitude_order(0, a.magnitude());
    lemma_magnitude_order(0, b.magnitude());
}

/// A NaN compares with nothing, and the infinities lie beyond all finite numbers.
pub proof fn law_order_of_extremes(a: Binary32, b: Binary32)
    ensures
        a.nan() || b.nan() ==> !a.less(b) && !a.at_most(b) && !a.same(b),
        !a.nan() && !b.nan() ==> a.less(b) == !b.at_most(a) && a.same(b) == (a.at_most(b)
            && b.at_most(a)),
        a.finite() ==> a.less(lit(0x7f80_0000)) && lit(0xff80_0000).less(a),
        a.nan() || a.finite() || a == lit(0x7f80_0000) || a == lit(0xff80_0000),
        !(a.nan() && a.finite()),
{
}

/// The number without its sign has the size of the number as its value.
pub proof fn law_unsigned(a: Binary32)
    ensures
        a.unsigned().value() == size(a.value()),
        a.unsigned().finite() == a.finite(),
        a.unsigned().nan() == a.nan(),
        !a.unsigned().negative(),
{
}

/// From the fourth exponent on, all values are even.
proof fn lemma_even_value(pattern: nat)
    requires
        0x100_0000 <= pattern < 0x7f80_0000,
    ensures
        magnitude_value(pattern) % 2 == 0,
{
    let k = (pattern / 0x80_0000 - 1) as nat;
    let f = pattern % 0x80_0000 + 0x80_0000;
    lemma_pow2_unfold(k);
    let h = pow2((k - 1) as nat);
    assert(f * pow2(k) == 2 * (f * h)) by (nonlinear_arith)
        requires
            pow2(k) == 2 * h,
    ;
}

/// The root of a finite number above zero is the nearest number to the exact root: the root of
/// `x`, in units, lies between the midpoints of the result with its two neighbours.
#[verifier::spinoff_prover]
#[verifier::rlimit(60)]
pub proof fn law_root_nearest(a: Binary32)
    requires
        a.finite(),
        lit(0).less(a),
    ensures
        ({
            let x = size(a.value()) * pow2(149);
            let b = a.root().magnitude();
            let low = magnitude_value((b - 1) as nat) + magnitude_value(b);
            let high = magnitude_value(b) + magnitude_value(b + 1);
            &&& !a.root().negative()
            &&& 0x180_0000 <= b < b + 1 < 0x7f80_0000
            &&& low * low <= 4 * x <= high * high
        }),
{
    reveal(Binary32::root);
    lemma2_to64();
    let (m, e) = lemma_magnitude_parts(a.magnitude());
    let x = size(a.value()) * pow2(149);
    lemma_pow2_pos(e);
    lemma_pow2_pos(149);
    assert(m * pow2(e) > 0) by {
        lemma_magnitude_order(0, a.magnitude());
    }
    let r = floor_root(x);
    lemma_floor_root(x);
    // The root is far above the numbers whose values may be odd, and far below the largest one.
    lemma_pow2_adds(26, 123);
    lemma_pow2_adds(26, 26);
    lemma_pow2_adds(52, 97);
    lemma_pow2_pos(97);
    assert(x >= pow2(149)) by (nonlinear_arith)
        requires
            x == size(a.value()) * pow2(149),
            size(a.value()) >= 1,
    ;
    assert(r >= 0x400_0000) by (nonlinear_arith)
        requires
            x < (r + 1) * (r + 1),
            x >= pow2(149),
            pow2(149) == (0x400_0000 * 0x400_0000) * pow2(97),
            pow2(97) >= 1,
            r >= 0,
    ;
    lemma_pow2_adds(24, e);
    lemma_pow2_monotone(24 + e, 277);
    lemma_pow2_adds(277, 149);
    lemma_pow2_adds(213, 213);
    let top = pow2(213);
    assert(x < top * top) by (nonlinear_arith)
        requires
            x == (m * pow2(e)) * pow2(149),
            m < 0x100_0000,
            0x100_0000 * pow2(e) <= pow2(277),
            pow2(277) * pow2(149) == top * top,
            pow2(149) > 0,
            pow2(e) > 0,
    ;
    assert(r < top) by (nonlinear_arith)
        requires
            r * r <= x,
            x < top * top,
            r >= 0,
            top >= 0,
    ;
    let exact = r * r == x;
    let n = if exact {
        r
    } else {
        2 * r + 1
    };
    let d: nat = if exact {
        1
    } else {
        2
    };
    let b = round_magnitude(n, d);
    assert(magnitude_value(0x180_0000) == 0x200_0000) by {
        assert(0x80_0000 * pow2(2) == 0x200_0000);
    }
    lemma_round_at_least(n, d, 0x180_0000);
    // 2^23 * 2^190 is two to the power 213
    assert(magnitude_value(0x5f80_0000) == top) by {
        lemma_pow2_adds(23, 190);
    }
    lemma_round_at_most(n, d, 0x5f80_0000);
    law_round_nearest(n, d);
    let low = magnitude_value((b - 1) as nat) + magnitude_value(b);
    let high = magnitude_value(b) + magnitude_value(b + 1);
    lemma_even_value((b - 1) as nat);
    lemma_even_value(b);
    lemma_even_value(b + 1);
    assert(low <= 2 * r);
    assert(low * low <= 4 * x) by (nonlinear_arith)
        requires
            0 <= low <= 2 * r,
            r * r <= x,
    ;
    if exact {
        assert(4 * x <= high * high) by (nonlinear_arith)
            requires
                high >= 2 * r,
                r * r == x,
                r >= 0,
        ;
    } else {
        assert(high >= 2 * r + 2);
        assert(4 * x <= high * high) by (nonlinear_arith)
            requires
                high >= 2 * r + 2,
                x < (r + 1) * (r + 1),
                r >= 0,
        ;
    }
}

} // verus!
