//! IEEE 754 binary64 values, held as bit patterns, and the conversions to
//! and from binary32.  Conversion to binary32 rounds to nearest, ties to
//! even; conversion from binary32 is exact.

use crate::pattern::{
    lemma_ordinal_decomposition,
    magnitude,
    quantum_exp,
    significand,
};
use crate::rounding::{lemma_round_scaled_shift, round_scaled, round_to_pattern};
use crate::single::Single;
use vstd::arithmetic::power2::{lemma2_to64, lemma2_to64_rest, pow2};
use vstd::prelude::*;

verus! {

/// Number of fraction bits of binary64.
pub const DOUBLE_FRACTION_BITS: u32 = 52;

/// The sign bit of binary64.
pub const DOUBLE_SIGN_BIT: u64 = 0x8000_0000_0000_0000;

/// The magnitude pattern of infinity; finite magnitudes lie strictly below,
/// NaNs strictly above.
pub const DOUBLE_INFINITY: u64 = 0x7FF0_0000_0000_0000;

/// The pattern of the quiet NaN that operations produce.
pub const DOUBLE_QUIET_NAN: u64 = 0x7FF8_0000_0000_0000;

/// An IEEE 754 binary64 value, held as its bit pattern.
///
/// Every bit pattern is a value of this type; there is no invariant.
#[derive(Clone, Copy, Debug)]
pub struct Double {
    pub bits: u64,
}

/// The binary32 value with the given sign and magnitude pattern.
pub open spec fn single_of(negative: bool, pattern: nat) -> Single {
    Single {
        bits: if negative {
            (pattern + 0x8000_0000) as u32
        } else {
            pattern as u32
        },
    }
}

/// The binary64 value with the given sign and magnitude pattern.
pub open spec fn double_of(negative: bool, pattern: nat) -> Double {
    Double {
        bits: if negative {
            (pattern + 0x8000_0000_0000_0000) as u64
        } else {
            pattern as u64
        },
    }
}

impl Double {
    /// The encoding with the sign bit cleared.
    pub open spec fn pattern(self) -> nat {
        (self.bits % 0x8000_0000_0000_0000) as nat
    }

    /// Whether the sign bit is set.
    pub open spec fn negative(self) -> bool {
        self.bits >= 0x8000_0000_0000_0000
    }

    /// Zero, subnormal or normal: neither infinite nor NaN.
    pub open spec fn finite(self) -> bool {
        self.pattern() < 0x7FF0_0000_0000_0000
    }

    pub open spec fn infinite(self) -> bool {
        self.pattern() == 0x7FF0_0000_0000_0000
    }

    pub open spec fn nan(self) -> bool {
        self.pattern() > 0x7FF0_0000_0000_0000
    }

    /// The absolute value in units of `2^-1074`, the smallest positive
    /// subnormal.  Meaningful for finite values.
    pub open spec fn magnitude(self) -> nat {
        magnitude(52, self.pattern())
    }

    /// The value in units of `2^-1074`.  Both zeros have value `0`.
    /// Meaningful for finite values.
    pub open spec fn value(self) -> int {
        if self.negative() {
            -(self.magnitude() as int)
        } else {
            self.magnitude() as int
        }
    }

    /// Whether the value is finite and not larger in magnitude than the
    /// largest finite value of binary32, `(2^24 - 1) * 2^104`.
    pub open spec fn in_single_range(self) -> bool {
        self.finite() && self.magnitude() <= 0xFF_FFFF * pow2(1178)
    }

    /// The binary64 value of a binary32 value.  Every finite binary32 value
    /// is a binary64 value; NaNs become the quiet NaN.
    pub open spec fn from_single_spec(x: Single) -> Double {
        if x.nan() {
            Double { bits: 0x7FF8_0000_0000_0000 }
        } else if x.infinite() {
            double_of(x.negative(), 0x7FF0_0000_0000_0000)
        } else {
            double_of(x.negative(), round_scaled(52, 2047, x.magnitude(), 925))
        }
    }

    /// This value rounded to binary32.  Magnitudes that round out of range
    /// become infinite; NaNs become the quiet NaN.
    pub open spec fn to_single_spec(self) -> Single {
        if self.nan() {
            Single { bits: 0x7FC0_0000 }
        } else if self.infinite() {
            single_of(self.negative(), 0x7F80_0000)
        } else {
            single_of(self.negative(), round_scaled(23, 255, self.magnitude(), -925))
        }
    }

    /// The value with exactly these bits.
    pub fn from_bits(bits: u64) -> (r: Double)
        ensures
            r.bits == bits,
    {
        Double { bits }
    }

    /// The bits of this value.
    pub fn to_bits(self) -> (bits: u64)
        ensures
            bits == self.bits,
    {
        self.bits
    }

    pub fn is_finite(self) -> (r: bool)
        ensures
            r == self.finite(),
    {
        self.bits % DOUBLE_SIGN_BIT < DOUBLE_INFINITY
    }

    pub fn is_nan(self) -> (r: bool)
        ensures
            r == self.nan(),
    {
        self.bits % DOUBLE_SIGN_BIT > DOUBLE_INFINITY
    }

    pub fn is_sign_negative(self) -> (r: bool)
        ensures
            r == self.negative(),
    {
        self.bits >= DOUBLE_SIGN_BIT
    }

    /// The same magnitude with the sign bit cleared.
    pub fn abs(self) -> (r: Double)
        ensures
            r.bits == self.pattern(),
            !r.negative(),
            r.pattern() == self.pattern(),
    {
        Double { bits: self.bits % DOUBLE_SIGN_BIT }
    }

    /// The value with the given sign and magnitude pattern.
    pub(crate) fn compose(negative: bool, pattern: u64) -> (r: Double)
        requires
            pattern < 0x8000_0000_0000_0000,
        ensures
            r == double_of(negative, pattern as nat),
            r.negative() == negative,
            r.pattern() == pattern,
    {
        if negative {
            Double { bits: pattern + DOUBLE_SIGN_BIT }
        } else {
            Double { bits: pattern }
        }
    }

    /// Quantum exponent and integral significand of a finite magnitude
    /// pattern.
    pub(crate) fn decompose(pattern: u64) -> (r: (u32, u64))
        requires
            pattern < 0x7FF0_0000_0000_0000,
        ensures
            r.0 == quantum_exp(52, pattern as nat),
            r.1 == significand(52, pattern as nat),
            r.0 <= 2045,
            r.1 < 0x20_0000_0000_0000,
            magnitude(52, pattern as nat) == r.1 * pow2(r.0 as nat),
    {
        proof {
            lemma2_to64();
            lemma2_to64_rest();
            lemma_ordinal_decomposition(52, pattern as nat);
        }
        if pattern < 0x20_0000_0000_0000 {
            (0, pattern)
        } else {
            ((pattern / 0x10_0000_0000_0000 - 1) as u32, 0x10_0000_0000_0000 + pattern
                % 0x10_0000_0000_0000)
        }
    }

    /// Converts a binary32 value to binary64.  The conversion is exact.
    pub fn from_single(x: Single) -> (r: Double)
        ensures
            r == Double::from_single_spec(x),
    {
        let negative = x.is_sign_negative();
        let pattern: u32 = x.abs().to_bits();
        if pattern > crate::single::SINGLE_INFINITY {
            return Double { bits: DOUBLE_QUIET_NAN };
        }
        if pattern == crate::single::SINGLE_INFINITY {
            return Double::compose(negative, DOUBLE_INFINITY);
        }
        proof {
            lemma2_to64();
            lemma_ordinal_decomposition(23, pattern as nat);
        }
        let q: u32 = if pattern < 0x100_0000 {
            0
        } else {
            pattern / 0x80_0000 - 1
        };
        let sig: u32 = if pattern < 0x100_0000 {
            pattern
        } else {
            0x80_0000 + pattern % 0x80_0000
        };
        proof {
            lemma_round_scaled_shift(52, 2047, sig as nat, q as nat, 925);
            assert(pow2(52) == 0x10_0000_0000_0000) by {
                lemma2_to64_rest();
            }
        }
        let m: u64 = round_to_pattern(52, 2047, sig as u128, (q + 925) as i32);
        Double::compose(negative, m)
    }

    /// Rounds this value to binary32.
    pub fn to_single(self) -> (r: Single)
        ensures
            r == self.to_single_spec(),
    {
        let negative = self.is_sign_negative();
        let pattern: u64 = self.abs().to_bits();
        if pattern > DOUBLE_INFINITY {
            return Single { bits: crate::single::SINGLE_QUIET_NAN };
        }
        let m: u32 = if pattern == DOUBLE_INFINITY {
            crate::single::SINGLE_INFINITY
        } else {
            let (q, sig) = Double::decompose(pattern);
            proof {
                lemma2_to64();
                lemma_round_scaled_shift(23, 255, sig as nat, q as nat, -925);
            }
            let m64: u64 = round_to_pattern(23, 255, sig as u128, q as i32 - 925);
            m64 as u32
        };
        if negative {
            Single { bits: m + crate::single::SINGLE_SIGN_BIT }
        } else {
            Single { bits: m }
        }
    }
}

/// A positive number below `2^53` can be doubled `j` times to lie in the
/// top binade below `2^53`.
proof fn lemma_normalize(s: nat) -> (j: nat)
    requires
        0 < s < pow2(53),
    ensures
        pow2(52) <= s * pow2(j) < pow2(53),
        s >= pow2(23) ==> j <= 29,
        j <= 52,
    decreases pow2(53) - s,
{
    lemma2_to64();
    lemma2_to64_rest();
    if s >= pow2(52) {
        assert(s * pow2(0) == s) by (nonlinear_arith)
            requires
                pow2(0) == 1,
        ;
        0
    } else {
        let j = lemma_normalize(2 * s);
        vstd::arithmetic::power2::lemma_pow2_unfold(j + 1);
        assert(s * pow2(j + 1) == (2 * s) * pow2(j)) by (nonlinear_arith)
            requires
                pow2(j + 1) == 2 * pow2(j),
        ;
        if j + 1 > 52 {
            crate::rounding::lemma_pow2_increases(53, j + 1);
            assert(s * pow2(j + 1) >= pow2(53)) by (nonlinear_arith)
                requires
                    s >= 1,
                    pow2(j + 1) >= pow2(53),
            ;
        }
        if s >= pow2(23) && j + 1 > 29 {
            crate::rounding::lemma_pow2_increases(30, j + 1);
            assert(s * pow2(j + 1) >= pow2(23) * pow2(30)) by (nonlinear_arith)
                requires
                    s >= pow2(23),
                    pow2(j + 1) >= pow2(30),
            ;
            vstd::arithmetic::power2::lemma_pow2_adds(23, 30);
        }
        j + 1
    }
}

/// Conversion from binary32 is exact: a finite value keeps its sign and its
/// magnitude, which is `2^925` times as many of the smaller units of
/// binary64.
pub proof fn lemma_from_single_exact(x: Single)
    requires
        x.finite(),
    ensures
        Double::from_single_spec(x).finite(),
        Double::from_single_spec(x).negative() == x.negative(),
        Double::from_single_spec(x).magnitude() == x.magnitude() * pow2(925),
        Double::from_single_spec(x).pattern() == round_scaled(52, 2047, x.magnitude(), 925),
        Double::from_single_spec(x).magnitude() < pow2(1202),
        Double::from_single_spec(x).in_single_range(),
        x.pattern() != 0 ==> Double::from_single_spec(x).pattern() != 0,
{
    lemma2_to64();
    lemma2_to64_rest();
    let m = x.pattern();
    lemma_ordinal_decomposition(23, m);
    let q = quantum_exp(23, m);
    let s = significand(23, m);
    assert(q <= 253);
    let n = x.magnitude() * pow2(925);
    vstd::arithmetic::power2::lemma_pow2_adds(q, 925);
    assert(n == s * pow2(q + 925)) by (nonlinear_arith)
        requires
            n == (s * pow2(q)) * pow2(925),
            pow2(q + 925) == pow2(q) * pow2(925),
    ;
    assert(2047 * pow2(52) == 0x7FF0_0000_0000_0000);
    // magnitude bound
    crate::rounding::lemma_pow2_scale_bounds(s, 24, q);
    crate::rounding::lemma_pow2_increases(24 + q, 277);
    let r: nat;
    if s == 0 {
        r = 0;
        assert(magnitude(52, 0) == 0);
        assert(n == 0) by (nonlinear_arith)
            requires
                n == s * pow2(q + 925),
                s == 0,
        ;
    } else {
        let j = lemma_normalize(s);
        let s2 = s * pow2(j);
        let q2 = (q + 925 - j) as nat;
        vstd::arithmetic::power2::lemma_pow2_adds(j, q2);
        assert(s2 * pow2(q2) == n) by (nonlinear_arith)
            requires
                s2 == s * pow2(j),
                n == s * pow2(q + 925),
                pow2(q + 925) == pow2(j) * pow2(q2),
        ;
        crate::pattern::lemma_magnitude_of_ordinal(52, q2, s2);
        r = crate::pattern::ordinal(52, q2, s2);
        assert(r < 0x7FF0_0000_0000_0000) by (nonlinear_arith)
            requires
                r == q2 * 0x10_0000_0000_0000 + s2,
                q2 <= 253 + 925,
                s2 < 0x20_0000_0000_0000,
        ;
    }
    assert(magnitude(52, r) == n);
    assert(n * pow2(0) == n) by (nonlinear_arith)
        requires
            pow2(0) == 1,
    ;
    crate::rounding::lemma_round_scaled_exact(52, 2047, r, 0);
    assert(round_scaled(52, 2047, n, 0) == r);
    crate::rounding::lemma_round_scaled_shift(52, 2047, x.magnitude(), 925, 0);
    assert(round_scaled(52, 2047, x.magnitude(), 925) == r);
    vstd::arithmetic::power2::lemma_pow2_adds(277, 925);
    vstd::arithmetic::power2::lemma_pow2_pos(925);
    assert(n < pow2(1202)) by (nonlinear_arith)
        requires
            n == x.magnitude() * pow2(925),
            x.magnitude() < pow2(277),
            pow2(1202) == pow2(277) * pow2(925),
            pow2(925) > 0,
    ;
    let top: nat = 0x7F7F_FFFF;
    assert(top == crate::pattern::ordinal(23, 253, 0xFF_FFFF));
    crate::pattern::lemma_magnitude_of_ordinal(23, 253, 0xFF_FFFF);
    if m < top {
        crate::pattern::lemma_magnitude_increases(23, m, top);
    }
    vstd::arithmetic::power2::lemma_pow2_adds(253, 925);
    assert(n <= 0xFF_FFFF * pow2(1178)) by (nonlinear_arith)
        requires
            n == x.magnitude() * pow2(925),
            x.magnitude() <= 0xFF_FFFF * pow2(253),
            pow2(1178) == pow2(253) * pow2(925),
            pow2(925) > 0,
    {
        assert((0xFF_FFFF * pow2(253)) * pow2(925) == 0xFF_FFFF * (pow2(253) * pow2(925)));
    }
    if m != 0 {
        crate::pattern::lemma_magnitude_increases(23, 0, m);
        assert(n > 0) by (nonlinear_arith)
            requires
                n == x.magnitude() * pow2(925),
                x.magnitude() > 0,
                pow2(925) > 0,
        ;
        assert(magnitude(52, 0) == 0);
    }
}

/// Converting a binary32 value to binary64 and back gives the value again,
/// unless it is a NaN.
pub proof fn lemma_single_round_trip(x: Single)
    requires
        !x.nan(),
    ensures
        Double::from_single_spec(x).to_single_spec() == x,
{
    lemma2_to64();
    lemma2_to64_rest();
    if x.finite() {
        lemma_from_single_exact(x);
        assert(255 * pow2(23) == 0x7F80_0000);
        crate::rounding::lemma_round_scaled_exact(23, 255, x.pattern(), 925);
    }
}

/// The binary32 value with a given sign and a pattern below the sign bit
/// has that sign and that pattern.
pub proof fn lemma_single_of(negative: bool, pattern: nat)
    requires
        pattern < 0x8000_0000,
    ensures
        single_of(negative, pattern).negative() == negative,
        single_of(negative, pattern).pattern() == pattern,
{
}

/// Rounding a finite binary64 value to binary32 keeps the sign, and the
/// pattern of the result is the rounded magnitude.
pub proof fn lemma_to_single_parts(x: Double)
    requires
        x.finite(),
    ensures
        x.to_single_spec().negative() == x.negative(),
        x.to_single_spec().pattern() == round_scaled(23, 255, x.magnitude(), -925),
        x.to_single_spec().pattern() <= 0x7F80_0000,
        x.pattern() == 0 ==> x.to_single_spec().pattern() == 0,
{
    lemma2_to64();
    assert(crate::rounding::infinity_pattern(23, 255) == 0x7F80_0000);
    lemma_single_of(x.negative(), round_scaled(23, 255, x.magnitude(), -925));
    if x.pattern() == 0 {
        lemma2_to64_rest();
        assert(magnitude(52, 0) == 0);
        assert(magnitude(23, 0) == 0);
        assert(magnitude(23, 0) * pow2(925) == 0) by (nonlinear_arith)
            requires
                magnitude(23, 0) == 0,
        ;
        crate::rounding::lemma_round_scaled_exact(23, 255, 0, 925);
    }
}

/// A value within the range of binary32 rounds to a finite binary32 value.
pub proof fn lemma_to_single_in_range(x: Double)
    requires
        x.in_single_range(),
    ensures
        x.to_single_spec().finite(),
{
    lemma2_to64();
    lemma_to_single_parts(x);
    let top: nat = 0x7F7F_FFFF;
    assert(top == crate::pattern::ordinal(23, 253, 0xFF_FFFF));
    crate::pattern::lemma_magnitude_of_ordinal(23, 253, 0xFF_FFFF);
    vstd::arithmetic::power2::lemma_pow2_adds(253, 925);
    assert(magnitude(23, top) * pow2(925) == 0xFF_FFFF * pow2(1178)) by (nonlinear_arith)
        requires
            magnitude(23, top) == 0xFF_FFFF * pow2(253),
            pow2(1178) == pow2(253) * pow2(925),
    ;
    assert(crate::rounding::infinity_pattern(23, 255) == 0x7F80_0000);
    crate::rounding::lemma_round_scaled_exact(23, 255, top, 925);
    crate::rounding::lemma_round_scaled_monotonic(
        23,
        255,
        x.magnitude(),
        0xFF_FFFF * pow2(1178),
        -925,
    );
}

/// Rounding to binary32 keeps the order of finite values.
pub proof fn lemma_to_single_monotonic(a: Double, b: Double)
    requires
        a.finite(),
        b.finite(),
        a.value() <= b.value(),
    ensures
        a.to_single_spec().value() <= b.to_single_spec().value(),
{
    lemma_to_single_parts(a);
    lemma_to_single_parts(b);
    lemma2_to64();
    lemma2_to64_rest();
    assert(magnitude(52, 0) == 0);
    assert(magnitude(23, 0) == 0);
    let ra = a.to_single_spec().pattern();
    let rb = b.to_single_spec().pattern();
    if a.pattern() > 0 {
        crate::pattern::lemma_magnitude_increases(52, 0, a.pattern());
    }
    if b.pattern() > 0 {
        crate::pattern::lemma_magnitude_increases(52, 0, b.pattern());
    }
    if a.magnitude() <= b.magnitude() {
        crate::rounding::lemma_round_scaled_monotonic(23, 255, a.magnitude(), b.magnitude(), -925);
        if ra < rb {
            crate::pattern::lemma_magnitude_increases(23, ra, rb);
        }
    } else {
        crate::rounding::lemma_round_scaled_monotonic(23, 255, b.magnitude(), a.magnitude(), -925);
        if rb < ra {
            crate::pattern::lemma_magnitude_increases(23, rb, ra);
        }
    }
}

} // verus!
