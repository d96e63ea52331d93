//! IEEE 754 binary32 values, held as bit patterns.

use crate::pattern::magnitude;
use vstd::prelude::*;

verus! {

/// Number of fraction bits of binary32.
pub const SINGLE_FRACTION_BITS: u32 = 23;

/// The sign bit of binary32.
pub const SINGLE_SIGN_BIT: u32 = 0x8000_0000;

/// The magnitude pattern of infinity; finite magnitudes lie strictly below,
/// NaNs strictly above.
pub const SINGLE_INFINITY: u32 = 0x7F80_0000;

/// The pattern of the quiet NaN that conversions produce.
pub const SINGLE_QUIET_NAN: u32 = 0x7FC0_0000;

/// An IEEE 754 binary32 value, held as its bit pattern.
///
/// Every bit pattern is a value of this type; there is no invariant.
#[derive(Clone, Copy, Debug)]
pub struct Single {
    pub bits: u32,
}

impl Single {
    /// The encoding with the sign bit cleared.
    pub open spec fn pattern(self) -> nat {
        (self.bits % 0x8000_0000) as nat
    }

    /// Whether the sign bit is set.
    pub open spec fn negative(self) -> bool {
        self.bits >= 0x8000_0000
    }

    /// Zero, subnormal or normal: neither infinite nor NaN.
    pub open spec fn finite(self) -> bool {
        self.pattern() < 0x7F80_0000
    }

    pub open spec fn infinite(self) -> bool {
        self.pattern() == 0x7F80_0000
    }

    pub open spec fn nan(self) -> bool {
        self.pattern() > 0x7F80_0000
    }

    /// The absolute value in units of `2^-149`, the smallest positive
    /// subnormal.  Meaningful for finite values.
    pub open spec fn magnitude(self) -> nat {
        magnitude(23, self.pattern())
    }

    /// The value in units of `2^-149`.  Both zeros have value `0`.
    /// Meaningful for finite values.
    pub open spec fn value(self) -> int {
        if self.negative() {
            -(self.magnitude() as int)
        } else {
            self.magnitude() as int
        }
    }

    /// The value with exactly these bits.
    pub fn from_bits(bits: u32) -> (r: Single)
        ensures
            r.bits == bits,
    {
        Single { bits }
    }

    /// The bits of this value.
    pub fn to_bits(self) -> (bits: u32)
        ensures
            bits == self.bits,
    {
        self.bits
    }

    pub fn is_finite(self) -> (r: bool)
        ensures
            r == self.finite(),
    {
        self.bits % SINGLE_SIGN_BIT < SINGLE_INFINITY
    }

    pub fn is_nan(self) -> (r: bool)
        ensures
            r == self.nan(),
    {
        self.bits % SINGLE_SIGN_BIT > SINGLE_INFINITY
    }

    pub fn is_sign_negative(self) -> (r: bool)
        ensures
            r == self.negative(),
    {
        self.bits >= SINGLE_SIGN_BIT
    }

    /// The same magnitude with the sign bit cleared.
    pub fn abs(self) -> (r: Single)
        ensures
            r.bits == self.pattern(),
            !r.negative(),
            r.pattern() == self.pattern(),
    {
        Single { bits: self.bits % SINGLE_SIGN_BIT }
    }
}

} // verus!
