//! IEEE 754 binary32 numbers as bit patterns: what a pattern is worth, the
//! order of the numbers, and their conversion to and from integers.
//!
//! Values are measured in units of `2^-149`, the least positive number, so
//! that every finite number is a whole count of units. The measure extends
//! to the infinities, which are worth more than any finite number.

use vstd::arithmetic::power2::{lemma2_to64, lemma_pow2_adds, lemma_pow2_pos, pow2};
use vstd::prelude::*;

verus! {

/// A binary32 number, held as its bit pattern: one sign bit, eight exponent
/// bits, twenty-three significand bits.
#[derive(Debug, Clone, Copy)]
pub struct Real {
    /// The bit pattern.
    pub bits: u32,
}

/// The number with the bit pattern `bits`.
#[verifier::allow_in_spec]
pub fn num(bits: u32) -> Real
    returns
        (Real { bits }),
{
    Real { bits }
}

/// `0.0`, as a bit pattern; so are the constants below.
pub const ZERO: u32 = 0x0000_0000;

/// `1.0`.
pub const ONE: u32 = 0x3f80_0000;

/// `2.0`.
pub const TWO: u32 = 0x4000_0000;

/// `0.5`.
pub const HALF: u32 = 0x3f00_0000;

/// `-0.5`.
pub const MINUS_HALF: u32 = 0xbf00_0000;

/// `-1.0`.
pub const MINUS_ONE: u32 = 0xbf80_0000;

/// `-2.0`.
pub const MINUS_TWO: u32 = 0xc000_0000;

/// Positive infinity.
pub const INFINITY: u32 = 0x7f80_0000;

/// Negative infinity.
pub const NEG_INFINITY: u32 = 0xff80_0000;

/// Gap between one and the next larger number.
pub const EPSILON: u32 = 0x3400_0000;

/// Least positive number with a full significand.
pub const MIN_POSITIVE: u32 = 0x0080_0000;

impl PartialEq for Real {
    /// Numeric equality: a NaN equals nothing, and the two zeros are equal.
    fn eq(&self, other: &Self) -> (r: bool) {
        proof {
            lemma_worth_order(self.magnitude(), other.magnitude());
            lemma_worth_zero(self.magnitude());
            lemma_worth_zero(other.magnitude());
        }
        !self.is_nan() && !other.is_nan() && self.rank() == other.rank()
    }
}

impl vstd::std_specs::cmp::PartialEqSpecImpl for Real {
    open spec fn obeys_eq_spec() -> bool {
        true
    }

    open spec fn eq_spec(&self, other: &Self) -> bool {
        !self.nan() && !other.nan() && self.value() == other.value()
    }
}

/// Worth, in units, of the non-negative pattern `g`.
pub open spec fn worth(g: int) -> int {
    let e = g / 0x80_0000;
    let m = g % 0x80_0000;
    if e == 0 {
        m
    } else {
        (0x80_0000 + m) * pow2((e - 1) as nat)
    }
}

/// Number of units in the number one.
pub open spec fn one_worth() -> int {
    pow2(149) as int
}

/// The nearest value of the `i32` range.
pub open spec fn clip(n: int) -> int {
    if n < i32::MIN {
        i32::MIN as int
    } else if n > i32::MAX {
        i32::MAX as int
    } else {
        n
    }
}

impl Real {
    /// Whether the sign bit is set.
    pub open spec fn negative(self) -> bool {
        self.bits >= 0x8000_0000
    }

    /// The pattern without its sign bit.
    pub open spec fn magnitude(self) -> int {
        self.bits as int % 0x8000_0000
    }

    /// Not a number.
    pub open spec fn nan(self) -> bool {
        self.magnitude() > 0x7f80_0000
    }

    /// Neither infinite nor a NaN.
    pub open spec fn finite(self) -> bool {
        self.magnitude() < 0x7f80_0000
    }

    /// Signed worth in units; meaningful unless the pattern is a NaN.
    pub open spec fn value(self) -> int {
        if self.negative() {
            -worth(self.magnitude())
        } else {
            worth(self.magnitude())
        }
    }

    /// `self < other`: false whenever a NaN is involved.
    pub open spec fn below(self, other: Real) -> bool {
        !self.nan() && !other.nan() && self.value() < other.value()
    }

    /// `self <= other`: false whenever a NaN is involved.
    pub open spec fn at_most(self, other: Real) -> bool {
        !self.nan() && !other.nan() && self.value() <= other.value()
    }

    /// The smaller of two numbers; a NaN yields to the other.
    pub open spec fn lesser(self, other: Real) -> Real {
        if self.nan() || other.below(self) {
            other
        } else {
            self
        }
    }

    /// The larger of two numbers; a NaN yields to the other.
    pub open spec fn greater(self, other: Real) -> Real {
        if self.nan() || self.below(other) {
            other
        } else {
            self
        }
    }

    /// `self` moved into `lo ..= hi`; a NaN stays.
    pub open spec fn within(self, lo: Real, hi: Real) -> Real {
        let raised = if self.below(lo) {
            lo
        } else {
            self
        };
        if hi.below(raised) {
            hi
        } else {
            raised
        }
    }

    /// `self` moved into `0 ..= 1`; a NaN stays.
    pub open spec fn in_unit(self) -> Real {
        self.within(num(ZERO), num(ONE))
    }

    /// `self` moved into `-1 ..= 1`; a NaN stays.
    pub open spec fn in_sign(self) -> Real {
        self.within(num(MINUS_ONE), num(ONE))
    }

    /// The number with its sign bit cleared.
    pub open spec fn unsigned(self) -> Real {
        Real { bits: self.magnitude() as u32 }
    }

    /// The number with its sign bit flipped.
    pub open spec fn flipped(self) -> Real {
        Real {
            bits: if self.negative() {
                self.magnitude() as u32
            } else {
                (self.magnitude() + 0x8000_0000) as u32
            },
        }
    }

    /// Greatest integer that is no larger, within the `i32` range; a NaN
    /// counts as zero.
    pub open spec fn floored(self) -> int {
        if self.nan() {
            0
        } else {
            clip(self.value() / one_worth())
        }
    }

    /// Least integer that is no smaller, within the `i32` range; a NaN
    /// counts as zero.
    pub open spec fn ceiled(self) -> int {
        if self.nan() {
            0
        } else {
            clip(-((-self.value()) / one_worth()))
        }
    }

    /// Nearest integer, halves away from zero, within the `i32` range; a
    /// NaN counts as zero.
    pub open spec fn rounded(self) -> int {
        if self.nan() {
            0
        } else if self.negative() {
            clip(-((2 * worth(self.magnitude()) + one_worth()) / (2 * one_worth())))
        } else {
            clip((2 * worth(self.magnitude()) + one_worth()) / (2 * one_worth()))
        }
    }
}

/// The nearest value of the `u8` range.
pub open spec fn clip_byte(n: int) -> int {
    if n < 0 {
        0
    } else if n > 255 {
        255
    } else {
        n
    }
}

impl Real {
    /// Nearest integer within the `u8` range; a NaN counts as zero.
    pub open spec fn as_byte(self) -> u8 {
        clip_byte(self.rounded()) as u8
    }
}

/// Each pattern is worth more than the one before it.
proof fn lemma_worth_step(g: int)
    requires
        0 <= g < 0x7fff_ffff,
    ensures
        worth(g) < worth(g + 1),
        worth(g) >= 0,
{
    let e = g / 0x80_0000;
    let m = g % 0x80_0000;
    lemma_pow2_pos(0);
    if e > 0 {
        lemma_pow2_pos((e - 1) as nat);
        let p = pow2((e - 1) as nat) as int;
        assert((0x80_0000 + m) * p >= 0 && (0x80_0000 + m + 1) * p == (0x80_0000 + m) * p + p)
            by (nonlinear_arith)
            requires
                p > 0,
                m >= 0,
        ;
    }
    if m + 1 == 0x80_0000 {
        assert((g + 1) / 0x80_0000 == e + 1 && (g + 1) % 0x80_0000 == 0);
        if e == 0 {
            lemma2_to64();
        } else {
            lemma_pow2_adds(1, (e - 1) as nat);
            lemma2_to64();
            let p = pow2((e - 1) as nat) as int;
            let q = pow2(e as nat) as int;
            assert(q == 2 * p) by {
                assert(1 + (e - 1) as nat == e as nat);
                assert(pow2(1) == 2);
            }
            assert(0x80_0000 * q == 0x100_0000 * p) by (nonlinear_arith)
                requires
                    q == 2 * p,
            ;
            assert((0x80_0000 + m) * p + p == 0x100_0000 * p) by (nonlinear_arith)
                requires
                    m + 1 == 0x80_0000,
            ;
        }
    } else {
        assert((g + 1) / 0x80_0000 == e && (g + 1) % 0x80_0000 == m + 1);
    }
}

/// The order of patterns is the order of what they are worth.
pub proof fn lemma_worth_order(g: int, h: int)
    requires
        0 <= g <= 0x7fff_ffff,
        0 <= h <= 0x7fff_ffff,
    ensures
        g < h <==> worth(g) < worth(h),
        g == h <==> worth(g) == worth(h),
{
    if g < h {
        lemma_worth_increases(g, h);
    } else if h < g {
        lemma_worth_increases(h, g);
    }
}

proof fn lemma_worth_increases(g: int, h: int)
    requires
        0 <= g < h <= 0x7fff_ffff,
    ensures
        worth(g) < worth(h),
    decreases h - g,
{
    lemma_worth_step(h - 1);
    if g < h - 1 {
        lemma_worth_increases(g, h - 1);
    }
}

/// A pattern is worth nothing only if it is zero, and never less.
proof fn lemma_worth_zero(g: int)
    requires
        0 <= g <= 0x7fff_ffff,
    ensures
        worth(g) >= 0,
        worth(g) == 0 <==> g == 0,
{
    assert(worth(0) == 0);
    lemma_worth_order(0, g);
}

impl Real {
    /// Whether the pattern is a NaN.
    pub fn is_nan(self) -> (r: bool)
        ensures
            r == self.nan(),
    {
        self.bits % 0x8000_0000 > 0x7f80_0000
    }

    /// Whether the number is neither infinite nor a NaN.
    pub fn is_finite(self) -> (r: bool)
        ensures
            r == self.finite(),
    {
        self.bits % 0x8000_0000 < 0x7f80_0000
    }

    /// Signed rank of the number in the order of all patterns; both zeros
    /// rank zero.
    fn rank(self) -> (r: i64)
        ensures
            r == (if self.negative() {
                -self.magnitude()
            } else {
                self.magnitude()
            }),
    {
        if self.bits >= 0x8000_0000 {
            -((self.bits - 0x8000_0000) as i64)
        } else {
            self.bits as i64
        }
    }

    /// `self < other`.
    pub fn lt(self, other: Real) -> (r: bool)
        ensures
            r == self.below(other),
    {
        proof {
            lemma_worth_order(self.magnitude(), other.magnitude());
            lemma_worth_zero(self.magnitude());
            lemma_worth_zero(other.magnitude());
        }
        !self.is_nan() && !other.is_nan() && self.rank() < other.rank()
    }

    /// `self <= other`.
    pub fn le(self, other: Real) -> (r: bool)
        ensures
            r == self.at_most(other),
    {
        proof {
            lemma_worth_order(self.magnitude(), other.magnitude());
            lemma_worth_zero(self.magnitude());
            lemma_worth_zero(other.magnitude());
        }
        !self.is_nan() && !other.is_nan() && self.rank() <= other.rank()
    }

    /// The smaller of two numbers; a NaN yields to the other.
    pub fn min(self, other: Real) -> (r: Real)
        ensures
            r == self.lesser(other),
    {
        if self.is_nan() || other.lt(self) {
            other
        } else {
            self
        }
    }

    /// The larger of two numbers; a NaN yields to the other.
    pub fn max(self, other: Real) -> (r: Real)
        ensures
            r == self.greater(other),
    {
        if self.is_nan() || self.lt(other) {
            other
        } else {
            self
        }
    }

    /// `self` moved into `lo ..= hi`; a NaN stays.
    pub fn clamp(self, lo: Real, hi: Real) -> (r: Real)
        requires
            lo.at_most(hi),
        ensures
            r == self.within(lo, hi),
    {
        let mut r = self;
        if r.lt(lo) {
            r = lo;
        }
        if hi.lt(r) {
            r = hi;
        }
        r
    }

    /// `self` moved into `0 ..= 1`; a NaN stays.
    pub fn unit_clamp(self) -> (r: Real)
        ensures
            r == self.in_unit(),
    {
        proof {
            lemma_worth_order(0, 0x3f80_0000);
        }
        self.clamp(num(ZERO), num(ONE))
    }

    /// `self` moved into `-1 ..= 1`; a NaN stays.
    pub fn sign_clamp(self) -> (r: Real)
        ensures
            r == self.in_sign(),
    {
        proof {
            lemma_worth_zero(0x3f80_0000);
        }
        self.clamp(num(MINUS_ONE), num(ONE))
    }

    /// The number with its sign bit cleared.
    pub fn abs(self) -> (r: Real)
        ensures
            r == self.unsigned(),
    {
        Real { bits: self.bits % 0x8000_0000 }
    }

    /// The number with its sign bit flipped.
    pub fn neg(self) -> (r: Real)
        ensures
            r == self.flipped(),
    {
        if self.bits >= 0x8000_0000 {
            Real { bits: self.bits - 0x8000_0000 }
        } else {
            Real { bits: self.bits + 0x8000_0000 }
        }
    }
}

/// `2^s` as a machine word.
fn power_of_two(s: u64) -> (p: u64)
    requires
        s < 64,
    ensures
        p == pow2(s as nat),
{
    proof {
        lemma_pow2_pos(s as nat);
        vstd::bits::lemma_u64_pow2_no_overflow(s as nat);
        vstd::bits::lemma_u64_shl_is_mul(1, s);
    }
    1u64 << s
}

/// Integer part of a magnitude, up to `2^31`, and what is known of the rest.
struct Split {
    whole: u64,
    rest: bool,
    half: bool,
}

impl Split {
    spec fn matches(self, g: int) -> bool {
        let m = worth(g);
        let one = one_worth();
        &&& self.whole < 0x8000_0000 ==> {
            &&& m / one == self.whole
            &&& self.rest == (m % one != 0)
            &&& self.half == (2 * (m % one) >= one)
        }
        &&& self.whole >= 0x8000_0000 ==> m / one >= 0x8000_0000
        &&& self.whole <= 0x8000_0000
    }
}

/// Quotient and remainder of `sig * 2^low` by `2^(low + d)`.
proof fn lemma_scaled_division(sig: int, low: nat, d: nat)
    requires
        sig >= 0,
    ensures
        (sig * pow2(low)) / (pow2(low + d) as int) == sig / (pow2(d) as int),
        (sig * pow2(low)) % (pow2(low + d) as int) == (sig % (pow2(d) as int)) * pow2(low),
{
    lemma_pow2_adds(low, d);
    lemma_pow2_pos(low);
    lemma_pow2_pos(d);
    let a = pow2(low) as int;
    let b = pow2(d) as int;
    let q = sig / b;
    let r = sig % b;
    vstd::arithmetic::div_mod::lemma_fundamental_div_mod(sig, b);
    assert(sig * a == q * (a * b) + r * a && 0 <= r * a < a * b) by (nonlinear_arith)
        requires
            sig == b * q + r,
            0 <= r < b,
            a > 0,
    ;
    vstd::arithmetic::div_mod::lemma_fundamental_div_mod_converse(sig * a, a * b, q, r * a);
}

/// Splits the magnitude pattern `g` into its integer part and the rest.
fn split(g: u32) -> (r: Split)
    requires
        g <= 0x7f80_0000,
    ensures
        r.matches(g as int),
{
    let e: u64 = (g / 0x80_0000) as u64;
    let m: u64 = (g % 0x80_0000) as u64;
    let ghost one = one_worth();
    if e == 0 {
        proof {
            vstd::arithmetic::power2::lemma_pow2_strictly_increases(24, 149);
            lemma2_to64();
            vstd::arithmetic::div_mod::lemma_fundamental_div_mod_converse(
                m as int,
                one,
                0,
                m as int,
            );
        }
        return Split { whole: 0, rest: m != 0, half: false };
    }
    let sig: u64 = 0x80_0000 + m;
    let ghost low = (e - 1) as nat;
    proof {
        lemma_pow2_pos(low);
    }
    if e >= 150 {
        let ghost up = (e - 150) as nat;
        proof {
            lemma_pow2_adds(up, 149);
            lemma_pow2_pos(149);
            assert(worth(g as int) == (sig * pow2(up)) * one + 0) by (nonlinear_arith)
                requires
                    worth(g as int) == sig * pow2(low),
                    pow2(low) == pow2(up) * pow2(149),
                    one == pow2(149),
            ;
            vstd::arithmetic::div_mod::lemma_fundamental_div_mod_converse(
                worth(g as int),
                one,
                sig * pow2(up),
                0,
            );
            lemma2_to64();
        }
        if e >= 158 {
            proof {
                if up > 8 {
                    vstd::arithmetic::power2::lemma_pow2_strictly_increases(8, up);
                }
                assert(sig * pow2(up) >= 0x80_0000 * 256) by (nonlinear_arith)
                    requires
                        sig >= 0x80_0000,
                        pow2(up) >= 256,
                ;
            }
            return Split { whole: 0x8000_0000, rest: false, half: false };
        }
        let p: u64 = power_of_two(e - 150);
        proof {
            if up < 7 {
                vstd::arithmetic::power2::lemma_pow2_strictly_increases(up, 7);
            }
            assert(0 <= sig * p < 0x8000_0000) by (nonlinear_arith)
                requires
                    sig < 0x100_0000,
                    0 < p <= 128,
            ;
            assert(one > 0);
        }
        return Split { whole: sig * p, rest: false, half: false };
    }
    let d: u64 = 150 - e;
    proof {
        lemma_scaled_division(sig as int, low, d as nat);
        assert(low + d == 149);
    }
    if d >= 25 {
        proof {
            lemma2_to64();
            if d > 25 {
                vstd::arithmetic::power2::lemma_pow2_strictly_increases(25, d as nat);
            }
            let p = pow2(d as nat) as int;
            vstd::arithmetic::div_mod::lemma_fundamental_div_mod_converse(
                sig as int,
                p,
                0,
                sig as int,
            );
            lemma_pow2_adds(low, d as nat);
            let a = pow2(low) as int;
            assert(sig * a != 0 && 2 * (sig * a) < a * p) by (nonlinear_arith)
                requires
                    a > 0,
                    0 < 2 * sig < p,
            ;
        }
        return Split { whole: 0, rest: true, half: false };
    }
    let p: u64 = power_of_two(d);
    proof {
        lemma_pow2_pos(d as nat);
    }
    let whole: u64 = sig / p;
    let rem: u64 = sig % p;
    proof {
        assert(rem <= sig) by (nonlinear_arith)
            requires
                rem == sig as int % p as int,
                p >= 1,
        ;
        lemma_pow2_adds(low, d as nat);
        let a = pow2(low) as int;
        assert((rem * a != 0) == (rem != 0)) by (nonlinear_arith)
            requires
                a > 0,
        ;
        assert((2 * (rem * a) >= a * p) == (2 * rem >= p)) by (nonlinear_arith)
            requires
                a > 0,
        ;
        assert(whole <= sig) by (nonlinear_arith)
            requires
                whole == sig as int / p as int,
                p >= 1,
        ;
    }
    Split { whole, rest: rem != 0, half: 2 * rem >= p }
}

/// Floor of a negated quotient.
proof fn lemma_negated_floor(m: int, one: int)
    requires
        m >= 0,
        one > 0,
    ensures
        (-m) / one == (if m % one == 0 {
            -(m / one)
        } else {
            -(m / one) - 1
        }),
{
    let q = m / one;
    let r = m % one;
    vstd::arithmetic::div_mod::lemma_fundamental_div_mod(m, one);
    if r == 0 {
        assert(-m == (-q) * one + 0) by (nonlinear_arith)
            requires
                m == one * q + r,
                r == 0,
        ;
        vstd::arithmetic::div_mod::lemma_fundamental_div_mod_converse(-m, one, -q, 0);
    } else {
        assert(-m == (-q - 1) * one + (one - r)) by (nonlinear_arith)
            requires
                m == one * q + r,
        ;
        vstd::arithmetic::div_mod::lemma_fundamental_div_mod_converse(-m, one, -q - 1, one - r);
    }
}

/// Rounding a quotient to nearest looks at the remainder only.
proof fn lemma_nearest(m: int, one: int)
    requires
        m >= 0,
        one > 0,
    ensures
        (2 * m + one) / (2 * one) == (if 2 * (m % one) >= one {
            m / one + 1
        } else {
            m / one
        }),
{
    let q = m / one;
    let r = m % one;
    vstd::arithmetic::div_mod::lemma_fundamental_div_mod(m, one);
    let (n, s) = if 2 * r >= one {
        (q + 1, 2 * r - one)
    } else {
        (q, 2 * r + one)
    };
    assert(2 * m + one == n * (2 * one) + s) by (nonlinear_arith)
        requires
            m == one * q + r,
            (n == q + 1 && s == 2 * r - one) || (n == q && s == 2 * r + one),
    ;
    vstd::arithmetic::div_mod::lemma_fundamental_div_mod_converse(2 * m + one, 2 * one, n, s);
}

impl Real {
    /// Greatest integer no larger than the number, saturating.
    pub fn floor_i32(self) -> (n: i32)
        ensures
            n == self.floored(),
    {
        if self.is_nan() {
            return 0;
        }
        let s = split(self.bits % 0x8000_0000);
        proof {
            lemma_worth_zero(self.magnitude());
            lemma_pow2_pos(149);
            lemma_negated_floor(worth(self.magnitude()), one_worth());
        }
        if self.bits >= 0x8000_0000 {
            if s.whole >= 0x8000_0000 {
                return i32::MIN;
            }
            let up: i64 = if s.rest {
                1
            } else {
                0
            };
            (-(s.whole as i64) - up) as i32
        } else if s.whole >= 0x8000_0000 {
            i32::MAX
        } else {
            s.whole as i32
        }
    }

    /// Least integer no smaller than the number, saturating.
    pub fn ceil_i32(self) -> (n: i32)
        ensures
            n == self.ceiled(),
    {
        if self.is_nan() {
            return 0;
        }
        let s = split(self.bits % 0x8000_0000);
        proof {
            lemma_worth_zero(self.magnitude());
            lemma_pow2_pos(149);
            lemma_negated_floor(worth(self.magnitude()), one_worth());
        }
        if self.bits >= 0x8000_0000 {
            if s.whole >= 0x8000_0000 {
                return i32::MIN;
            }
            (-(s.whole as i64)) as i32
        } else {
            let up: u64 = if s.rest {
                1
            } else {
                0
            };
            if s.whole + up >= 0x8000_0000 {
                i32::MAX
            } else {
                (s.whole + up) as i32
            }
        }
    }

    /// Nearest integer, halves away from zero, saturating.
    pub fn round_i32(self) -> (n: i32)
        ensures
            n == self.rounded(),
    {
        if self.is_nan() {
            return 0;
        }
        let s = split(self.bits % 0x8000_0000);
        proof {
            lemma_worth_zero(self.magnitude());
            lemma_pow2_pos(149);
            lemma_nearest(worth(self.magnitude()), one_worth());
        }
        let up: u64 = if s.half {
            1
        } else {
            0
        };
        let whole: u64 = s.whole + up;
        if self.bits >= 0x8000_0000 {
            if whole >= 0x8000_0000 {
                i32::MIN
            } else {
                (-(whole as i64)) as i32
            }
        } else if whole >= 0x8000_0000 {
            i32::MAX
        } else {
            whole as i32
        }
    }
}

impl Real {
    /// Nearest integer, halves away from zero, saturating at the ends of the
    /// `u8` range.
    pub fn byte(self) -> (n: u8)
        ensures
            n == self.as_byte(),
    {
        let n: i32 = self.round_i32();
        if n < 0 {
            0
        } else if n > 255 {
            255
        } else {
            n as u8
        }
    }
}

/// Exponent of the gap between neighbouring numbers around the integer `n`.
pub open spec fn spacing(n: int) -> nat
    decreases n,
{
    if n < 0x100_0000 {
        0
    } else {
        1 + spacing(n / 2)
    }
}

/// `n / u` rounded to the nearest integer, halves to the even one.
pub open spec fn halves_to_even(n: int, u: int) -> int {
    let q = n / u;
    let r = n % u;
    if 2 * r < u || (2 * r == u && q % 2 == 0) {
        q
    } else {
        q + 1
    }
}

/// The number nearest to the integer `n >= 0`, as an integer.
pub open spec fn nearest_number(n: int) -> int {
    let u = pow2(spacing(n)) as int;
    halves_to_even(n, u) * u
}

/// Whether `r` is the number nearest to the integer `n`.
pub open spec fn is_number_of(r: Real, n: int) -> bool {
    &&& r.finite()
    &&& r.negative() == (n < 0)
    &&& r.value() == (if n < 0 {
        -nearest_number(-n)
    } else {
        nearest_number(n)
    }) * one_worth()
}

/// The number nearest to the integer `n`.
pub open spec fn number_of(n: int) -> Real {
    choose|r: Real| is_number_of(r, n)
}

/// At most one number is nearest to an integer.
proof fn lemma_number_of(r: Real, n: int)
    requires
        is_number_of(r, n),
    ensures
        r == number_of(n),
{
    let t = number_of(n);
    lemma_worth_order(r.magnitude(), t.magnitude());
    assert(r.bits == t.bits);
}

/// `n` halved `s` times is `n / 2^s`.
proof fn lemma_halved(n: int, s: nat)
    requires
        n >= 0,
    ensures
        (n / (pow2(s) as int)) / 2 == n / (pow2(s + 1) as int),
{
    lemma_pow2_pos(s);
    lemma_pow2_adds(s, 1);
    lemma2_to64();
    vstd::arithmetic::div_mod::lemma_div_denominator(n, pow2(s) as int, 2);
}

/// The spacing of an integer, found by halving it `s` times.
proof fn lemma_spacing(n: int, s: nat)
    requires
        n >= 0,
        n / (pow2(s) as int) < 0x100_0000,
        s > 0 ==> n / (pow2((s - 1) as nat) as int) >= 0x100_0000,
    ensures
        spacing(n) == s,
    decreases s,
{
    lemma2_to64();
    if s > 0 {
        assert(n >= 0x100_0000) by {
            lemma_pow2_pos((s - 1) as nat);
            let p = pow2((s - 1) as nat) as int;
            assert(n / p <= n) by (nonlinear_arith)
                requires
                    p >= 1,
                    n >= 0,
            ;
        }
        lemma_halved_first(n, (s - 1) as nat);
        if s > 1 {
            lemma_halved_first(n, (s - 2) as nat);
        }
        lemma_spacing(n / 2, (s - 1) as nat);
        assert(spacing(n) == 1 + spacing(n / 2));
    } else {
        assert(n / 1 == n);
    }
}

/// Halving first or last makes no difference.
proof fn lemma_halved_first(n: int, s: nat)
    requires
        n >= 0,
    ensures
        (n / 2) / (pow2(s) as int) == n / (pow2(s + 1) as int),
{
    lemma_pow2_pos(s);
    lemma_pow2_adds(1, s);
    lemma2_to64();
    vstd::arithmetic::div_mod::lemma_div_denominator(n, 2, pow2(s) as int);
}

impl Real {
    /// The number nearest to an integer, halves to the even significand.
    pub fn of_u32(n: u32) -> (r: Real)
        ensures
            is_number_of(r, n as int),
            r == number_of(n as int),
    {
        let wide: u64 = n as u64;
        let mut s: u64 = 0;
        let mut p: u64 = 1;
        proof {
            lemma2_to64();
        }
        while wide / p >= 0x100_0000
            invariant
                wide <= 0xffff_ffff,
                s <= 8,
                p == pow2(s as nat),
                p >= 1,
                s > 0 ==> wide as int / (pow2((s - 1) as nat) as int) >= 0x100_0000,
            decreases 8 - s,
        {
            proof {
                lemma2_to64();
                lemma_pow2_adds(s as nat, 1);
                if s == 8 {
                    assert(wide / 256 < 0x100_0000);
                }
            }
            s = s + 1;
            p = p * 2;
        }
        proof {
            lemma2_to64();
            lemma_spacing(wide as int, s as nat);
            if s < 8 {
                vstd::arithmetic::power2::lemma_pow2_strictly_increases(s as nat, 8);
            }
        }
        let q: u64 = wide / p;
        let rem: u64 = wide % p;
        let mut sig: u64 = if 2 * rem < p || (2 * rem == p && q % 2 == 0) {
            q
        } else {
            q + 1
        };
        assert(sig == halves_to_even(wide as int, p as int));
        if sig == 0 {
            let r = Real { bits: 0 };
            proof {
                assert(worth(0) == 0);
                assert(nearest_number(n as int) == 0 && 0 * one_worth() == 0) by (nonlinear_arith)
                    requires
                        nearest_number(n as int) == sig * p,
                        sig == 0,
                ;
                assert(r.value() == 0);
                lemma_number_of(r, n as int);
            }
            return r;
        }
        let mut e: u64 = s + 150;
        let ghost total = nearest_number(n as int) * one_worth();
        proof {
            lemma_pow2_adds(s as nat, 149);
            assert(total == sig * pow2((e - 1) as nat)) by (nonlinear_arith)
                requires
                    total == (sig * p) * one_worth(),
                    p == pow2(s as nat),
                    one_worth() == pow2(149),
                    pow2((e - 1) as nat) == pow2(s as nat) * pow2(149),
            ;
            assert(s > 0 ==> sig >= 0x80_0000) by {
                if s > 0 {
                    lemma_halved(wide as int, (s - 1) as nat);
                }
            }
        }
        while sig < 0x80_0000
            invariant
                1 <= sig <= 0x100_0000,
                120 < e <= 158,
                sig < 0x80_0000 ==> e <= 150,
                sig < 0x100_0000 || e >= 150,
                e <= 150 ==> pow2((150 - e) as nat) <= sig,
                total == sig * pow2((e - 1) as nat),
            decreases 0x100_0000 - sig,
        {
            proof {
                lemma2_to64();
                lemma_pow2_adds(1, (e - 2) as nat);
                lemma_pow2_adds(1, (150 - e) as nat);
                assert(sig * pow2((e - 1) as nat) == (sig * 2) * pow2((e - 2) as nat))
                    by (nonlinear_arith)
                    requires
                        pow2((e - 1) as nat) == 2 * pow2((e - 2) as nat),
                ;
                if e <= 127 {
                    if e < 127 {
                        vstd::arithmetic::power2::lemma_pow2_strictly_increases(
                            23,
                            (150 - e) as nat,
                        );
                    }
                }
            }
            sig = sig * 2;
            e = e - 1;
        }
        let bits: u64 = e * 0x80_0000 + (sig - 0x80_0000);
        proof {
            if sig == 0x100_0000 {
                assert(bits as int / 0x80_0000 == e + 1 && bits as int % 0x80_0000 == 0);
                lemma_pow2_adds(1, (e - 1) as nat);
                lemma2_to64();
                assert(sig * pow2((e - 1) as nat) == 0x80_0000 * pow2(e as nat));
            } else {
                assert(bits as int / 0x80_0000 == e && bits as int % 0x80_0000 == sig - 0x80_0000);
            }
        }
        let r = Real { bits: bits as u32 };
        proof {
            lemma_number_of(r, n as int);
        }
        r
    }

    /// The number nearest to a signed integer.
    pub fn of_i64(n: i64) -> (r: Real)
        requires
            -0xffff_ffff <= n <= 0xffff_ffff,
        ensures
            is_number_of(r, n as int),
            r == number_of(n as int),
    {
        if n < 0 {
            let a = Real::of_u32((-n) as u32);
            proof {
                let m = nearest_number(-n);
                assert(-(m * one_worth()) == -m * one_worth()) by (nonlinear_arith);
            }
            let r = a.neg();
            proof {
                lemma_number_of(r, n as int);
            }
            r
        } else {
            Real::of_u32(n as u32)
        }
    }
}

/// Numbers are ordered like what they are worth: of two that are no NaN
/// either is below the other, or they are equal, and never two of these at
/// once.
pub proof fn law_order_is_total(a: Real, b: Real)
    requires
        !a.nan(),
        !b.nan(),
    ensures
        a.below(b) || b.below(a) || a.value() == b.value(),
        !(a.below(b) && b.below(a)),
        a.at_most(b) == (a.below(b) || a.value() == b.value()),
{
}

/// Integers up to `2^24` are exact: converting one to a number and back
/// gives it back, whichever way it is rounded.
pub proof fn law_integer_round_trip(r: Real, n: int)
    requires
        is_number_of(r, n),
        -0x100_0000 < n < 0x100_0000,
    ensures
        r.value() == n * one_worth(),
        r.floored() == n,
        r.ceiled() == n,
        r.rounded() == n,
{
    let one = one_worth();
    let m = if n < 0 {
        -n
    } else {
        n
    };
    lemma_pow2_pos(149);
    lemma2_to64();
    assert(nearest_number(m) == m) by {
        assert(spacing(m) == 0 && pow2(0) == 1);
        assert(m / 1 == m && m % 1 == 0);
        let u = pow2(spacing(m)) as int;
        assert(u == 1);
        assert(halves_to_even(m, u) * u == m) by (nonlinear_arith)
            requires
                u == 1,
                halves_to_even(m, u) == m,
        ;
    }
    assert(-m * one == -(m * one)) by (nonlinear_arith);
    assert(worth(r.magnitude()) == m * one);
    vstd::arithmetic::div_mod::lemma_fundamental_div_mod_converse(m * one, one, m, 0);
    lemma_worth_zero(r.magnitude());
    lemma_negated_floor(m * one, one);
    lemma_nearest(m * one, one);
}

/// Dividing by a positive number keeps order.
proof fn lemma_quotients(a: int, b: int, d: int)
    requires
        a <= b,
        d > 0,
    ensures
        a / d <= b / d,
{
    vstd::arithmetic::div_mod::lemma_div_is_ordered(a, b, d);
}

/// A larger number does not become a smaller byte.
pub proof fn law_bytes_keep_order(a: Real, b: Real)
    requires
        a.at_most(b),
    ensures
        a.as_byte() <= b.as_byte(),
{
    let one = one_worth();
    let (m, n) = (worth(a.magnitude()), worth(b.magnitude()));
    lemma_pow2_pos(149);
    lemma_worth_zero(a.magnitude());
    lemma_worth_zero(b.magnitude());
    lemma_quotients(0, 2 * m + one, 2 * one);
    lemma_quotients(0, 2 * n + one, 2 * one);
    vstd::arithmetic::div_mod::lemma_fundamental_div_mod_converse(0, 2 * one, 0, 0);
    vstd::arithmetic::div_mod::lemma_fundamental_div_mod_converse(one, 2 * one, 0, one);
    if m <= n {
        lemma_quotients(2 * m + one, 2 * n + one, 2 * one);
    } else {
        lemma_quotients(2 * n + one, 2 * m + one, 2 * one);
    }
}

/// What lies between finite numbers is finite.
pub proof fn lemma_between_finite(lo: Real, r: Real, hi: Real)
    requires
        lo.at_most(r),
        r.at_most(hi),
        lo.finite(),
        hi.finite(),
    ensures
        r.finite(),
{
    lemma_worth_order(r.magnitude(), lo.magnitude());
    lemma_worth_order(r.magnitude(), hi.magnitude());
    lemma_worth_zero(r.magnitude());
    lemma_worth_zero(lo.magnitude());
    lemma_worth_zero(hi.magnitude());
}

} // verus!
