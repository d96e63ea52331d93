//! Subtraction and multiplication of binary64 values, rounded to nearest,
//! ties to even.
//!
//! Both operations compute the exact result as an integer times a power of
//! two and round it once.  Where the operands of a subtraction are more than
//! 64 binary places apart, the smaller one cannot change the rounded result
//! and the larger one is returned.

use crate::double::{double_of, Double, DOUBLE_INFINITY, DOUBLE_QUIET_NAN};
use crate::pattern::{
    lemma_magnitude_increases,
    lemma_magnitude_of_ordinal,
    lemma_nearest_even_exact,
    lemma_nearest_even_of_ordinal,
    lemma_ordinal_decomposition,
    magnitude,
    nearest_even,
    ordinal,
    ordinal_ok,
    quantum_exp,
    significand,
};
use crate::rounding::{
    lemma_pow2_increases,
    lemma_pow2_scale_bounds,
    lemma_round_scaled_shift,
    lemma_u128_one_shl,
    round_scaled,
    round_to_pattern,
};
use vstd::arithmetic::power2::{
    lemma2_to64,
    lemma2_to64_rest,
    lemma_pow2_adds,
    lemma_pow2_pos,
    lemma_pow2_unfold,
    pow2,
};
use vstd::prelude::*;

verus! {

/// A magnitude `s * 2^q` plus something below `2^(q - 1)` rounds to
/// `s * 2^q`.
proof fn lemma_absorb_sum(q: nat, s: nat, small: nat)
    requires
        ordinal_ok(52, q, s),
        s < pow2(53),
        2 * small < pow2(q),
        ordinal(52, q, s) < 0x7FF0_0000_0000_0000,
    ensures
        round_scaled(52, 2047, s * pow2(q) + small, 0) == ordinal(52, q, s),
{
    let n = s * pow2(q) + small;
    lemma2_to64();
    lemma2_to64_rest();
    assert(n * pow2(0) == n) by (nonlinear_arith)
        requires
            pow2(0) == 1,
    ;
    assert(pow2(q) * 1 == pow2(q));
    assert(n == s * pow2(q) * 1 + small) by (nonlinear_arith)
        requires
            n == s * pow2(q) + small,
    ;
    lemma_nearest_even_of_ordinal(52, q, s, n, 1, small);
    assert(2047 * pow2(52) == 0x7FF0_0000_0000_0000);
}

/// A magnitude `s * 2^q` of a normal number with `q >= 2`, less something
/// below `2^(q - 2)`, rounds to `s * 2^q`.
proof fn lemma_absorb_difference(q: nat, s: nat, small: nat)
    requires
        q >= 2,
        ordinal_ok(52, q, s),
        s < pow2(53),
        4 * small < pow2(q),
        ordinal(52, q, s) < 0x7FF0_0000_0000_0000,
    ensures
        s * pow2(q) >= small,
        round_scaled(52, 2047, (s * pow2(q) - small) as nat, 0) == ordinal(52, q, s),
{
    let u = pow2(q);
    let b = pow2(52);
    lemma2_to64();
    lemma2_to64_rest();
    lemma_pow2_pos(q);
    lemma_pow2_unfold(q);
    lemma_pow2_unfold(53);
    assert(s * u >= b * u && b * u >= u) by (nonlinear_arith)
        requires
            s >= b,
            b >= 1,
            u > 0,
    ;
    let n = (s * u - small) as nat;
    assert(n * pow2(0) == n) by (nonlinear_arith)
        requires
            pow2(0) == 1,
    ;
    assert(2047 * pow2(52) == 0x7FF0_0000_0000_0000);
    if small == 0 {
        lemma_magnitude_of_ordinal(52, q, s);
        assert(s * u * 1 == s * u);
        lemma_nearest_even_exact(52, ordinal(52, q, s), 1);
    } else if s > b {
        // the floor is the predecessor in the same binade
        let e = (u - small) as nat;
        assert(n == (s - 1) * u * 1 + e) by (nonlinear_arith)
            requires
                n == s * u - small,
                e == u - small,
        ;
        assert(u * 1 == u);
        lemma_nearest_even_of_ordinal(52, q, (s - 1) as nat, n, 1, e);
        assert(ordinal(52, q, (s - 1) as nat) + 1 == ordinal(52, q, s));
    } else {
        // the predecessor of a power of two lies in the binade below
        let h = pow2((q - 1) as nat);
        assert(u == 2 * h);
        let t = (2 * b - 1) as nat;
        let e = (h - small) as nat;
        assert(n == t * h * 1 + e) by (nonlinear_arith)
            requires
                n == s * u - small,
                s == b,
                u == 2 * h,
                t == 2 * b - 1,
                e == h - small,
        ;
        assert(h * 1 == h);
        lemma_nearest_even_of_ordinal(52, (q - 1) as nat, t, n, 1, e);
        assert(ordinal(52, (q - 1) as nat, t) + 1 == ordinal(52, q, s)) by (nonlinear_arith)
            requires
                ordinal(52, (q - 1) as nat, t) == (q - 1) * b + t,
                ordinal(52, q, s) == q * b + s,
                t == 2 * b - 1,
                s == b,
                q >= 1,
        ;
    }
}

impl Double {
    /// The difference of two values.
    ///
    /// Of finite operands it is the exact difference, rounded to nearest,
    /// ties to even; a difference of zero is `+0`, except that `-0 - +0` is
    /// `-0`.  A NaN operand and the difference of equal infinities give the
    /// quiet NaN.
    pub open spec fn subtract_spec(self, other: Double) -> Double {
        if self.nan() || other.nan() {
            Double { bits: 0x7FF8_0000_0000_0000 }
        } else if self.infinite() {
            if other.infinite() && self.negative() == other.negative() {
                Double { bits: 0x7FF8_0000_0000_0000 }
            } else {
                self
            }
        } else if other.infinite() {
            double_of(!other.negative(), 0x7FF0_0000_0000_0000)
        } else {
            let x = self.value() - other.value();
            if x == 0 {
                double_of(self.negative() && !other.negative(), 0)
            } else if x < 0 {
                double_of(true, round_scaled(52, 2047, (-x) as nat, 0))
            } else {
                double_of(false, round_scaled(52, 2047, x as nat, 0))
            }
        }
    }

    /// The product of two values.
    ///
    /// Of finite operands it is the exact product, rounded to nearest, ties
    /// to even, with the sign of the exact product also where it is zero.  A
    /// NaN operand and the product of zero and infinity give the quiet NaN.
    pub open spec fn multiply_spec(self, other: Double) -> Double {
        if self.nan() || other.nan() {
            Double { bits: 0x7FF8_0000_0000_0000 }
        } else if self.infinite() || other.infinite() {
            if self.pattern() == 0 || other.pattern() == 0 {
                Double { bits: 0x7FF8_0000_0000_0000 }
            } else {
                double_of(self.negative() != other.negative(), 0x7FF0_0000_0000_0000)
            }
        } else {
            double_of(
                self.negative() != other.negative(),
                round_scaled(52, 2047, self.magnitude() * other.magnitude(), -1074),
            )
        }
    }

    /// The pattern of the rounded sum of two finite magnitudes, given by
    /// their patterns.
    fn add_magnitudes(pa: u64, pb: u64) -> (m: u64)
        requires
            pa < 0x7FF0_0000_0000_0000,
            pb < 0x7FF0_0000_0000_0000,
        ensures
            m == round_scaled(52, 2047, magnitude(52, pa as nat) + magnitude(52, pb as nat), 0),
            m <= 0x7FF0_0000_0000_0000,
            pa == 0 && pb == 0 ==> m == 0,
    {
        proof {
            lemma2_to64();
            lemma2_to64_rest();
            assert(2047 * pow2(52) == 0x7FF0_0000_0000_0000);
        }
        let (ph, pl) = if pa >= pb {
            (pa, pb)
        } else {
            (pb, pa)
        };
        let (qh, sh) = Double::decompose(ph);
        let (ql, sl) = Double::decompose(pl);
        let shift: u32 = qh - ql;
        proof {
            lemma_ordinal_decomposition(52, ph as nat);
            lemma_ordinal_decomposition(52, pl as nat);
        }
        if shift > 64 {
            proof {
                let small = sl * pow2(ql as nat);
                lemma_pow2_scale_bounds(sl as nat, 53, ql as nat);
                lemma_pow2_increases((53 + ql + 1) as nat, qh as nat);
                lemma_pow2_unfold((53 + ql + 1) as nat);
                lemma_absorb_sum(qh as nat, sh as nat, small as nat);
            }
            return ph;
        }
        let unit: u128 = 1u128 << (shift as u128);
        proof {
            lemma_u128_one_shl(shift as u128);
            lemma_pow2_increases(shift as nat, 64);
            assert(sh * unit <= 0x20_0000_0000_0000 * 0x1_0000_0000_0000_0000) by (nonlinear_arith)
                requires
                    sh <= 0x20_0000_0000_0000,
                    unit <= 0x1_0000_0000_0000_0000,
            ;
        }
        let n: u128 = (sh as u128) * unit + (sl as u128);
        proof {
            lemma_pow2_adds(shift as nat, ql as nat);
            assert(n * pow2(ql as nat) == sh * pow2(qh as nat) + sl * pow2(ql as nat))
                by (nonlinear_arith)
                requires
                    n == sh * unit + sl,
                    pow2(qh as nat) == unit * pow2(ql as nat),
            ;
            lemma_round_scaled_shift(52, 2047, n as nat, ql as nat, 0);
        }
        round_to_pattern(52, 2047, n, ql as i32)
    }

    /// The pattern of the rounded difference of two finite magnitudes, given
    /// by their patterns, the larger first.
    fn subtract_magnitudes(ph: u64, pl: u64) -> (m: u64)
        requires
            pl < ph < 0x7FF0_0000_0000_0000,
        ensures
            magnitude(52, ph as nat) > magnitude(52, pl as nat),
            m == round_scaled(
                52,
                2047,
                (magnitude(52, ph as nat) - magnitude(52, pl as nat)) as nat,
                0,
            ),
            m <= 0x7FF0_0000_0000_0000,
    {
        proof {
            lemma2_to64();
            lemma2_to64_rest();
            assert(2047 * pow2(52) == 0x7FF0_0000_0000_0000);
            lemma_magnitude_increases(52, pl as nat, ph as nat);
        }
        let (qh, sh) = Double::decompose(ph);
        let (ql, sl) = Double::decompose(pl);
        let shift: u32 = qh - ql;
        proof {
            lemma_ordinal_decomposition(52, ph as nat);
            lemma_ordinal_decomposition(52, pl as nat);
        }
        if shift > 64 {
            proof {
                let small = sl * pow2(ql as nat);
                lemma_pow2_scale_bounds(sl as nat, 53, ql as nat);
                lemma_pow2_increases((53 + ql + 2) as nat, qh as nat);
                lemma_pow2_unfold((53 + ql + 2) as nat);
                lemma_pow2_unfold((53 + ql + 1) as nat);
                lemma_absorb_difference(qh as nat, sh as nat, small as nat);
            }
            return ph;
        }
        let unit: u128 = 1u128 << (shift as u128);
        proof {
            lemma_u128_one_shl(shift as u128);
            lemma_pow2_increases(shift as nat, 64);
            assert(sh * unit <= 0x20_0000_0000_0000 * 0x1_0000_0000_0000_0000) by (nonlinear_arith)
                requires
                    sh <= 0x20_0000_0000_0000,
                    unit <= 0x1_0000_0000_0000_0000,
            ;
            lemma_pow2_adds(shift as nat, ql as nat);
            lemma_pow2_pos(ql as nat);
            assert(sh * unit > sl) by (nonlinear_arith)
                requires
                    sh * pow2(qh as nat) > sl * pow2(ql as nat),
                    pow2(qh as nat) == unit * pow2(ql as nat),
                    pow2(ql as nat) > 0,
            {
                assert(sh * (unit * pow2(ql as nat)) == (sh * unit) * pow2(ql as nat));
            }
        }
        let n: u128 = (sh as u128) * unit - (sl as u128);
        proof {
            assert(n * pow2(ql as nat) == sh * pow2(qh as nat) - sl * pow2(ql as nat))
                by (nonlinear_arith)
                requires
                    n == sh * unit - sl,
                    pow2(qh as nat) == unit * pow2(ql as nat),
            ;
            lemma_round_scaled_shift(52, 2047, n as nat, ql as nat, 0);
        }
        round_to_pattern(52, 2047, n, ql as i32)
    }

    /// Subtracts `other` from this value.
    pub fn subtract(self, other: Double) -> (r: Double)
        ensures
            r == self.subtract_spec(other),
    {
        let na = self.is_sign_negative();
        let nb = other.is_sign_negative();
        let pa: u64 = self.abs().to_bits();
        let pb: u64 = other.abs().to_bits();
        if pa > DOUBLE_INFINITY || pb > DOUBLE_INFINITY {
            return Double { bits: DOUBLE_QUIET_NAN };
        }
        if pa == DOUBLE_INFINITY {
            if pb == DOUBLE_INFINITY && na == nb {
                return Double { bits: DOUBLE_QUIET_NAN };
            }
            return self;
        }
        if pb == DOUBLE_INFINITY {
            return Double::compose(!nb, DOUBLE_INFINITY);
        }
        proof {
            lemma2_to64();
            lemma2_to64_rest();
            assert(magnitude(52, 0) == 0);
            if pa < pb {
                lemma_magnitude_increases(52, pa as nat, pb as nat);
            }
            if pb < pa {
                lemma_magnitude_increases(52, pb as nat, pa as nat);
            }
            if 0 < pa {
                lemma_magnitude_increases(52, 0, pa as nat);
            }
            if 0 < pb {
                lemma_magnitude_increases(52, 0, pb as nat);
            }
        }
        let ghost x = self.value() - other.value();
        let ghost ma = magnitude(52, pa as nat);
        let ghost mb = magnitude(52, pb as nat);
        if na != nb {
            // the magnitudes add, and the sign is that of the minuend
            let m = Double::add_magnitudes(pa, pb);
            assert(na ==> x == -(ma + mb));
            assert(!na ==> x == ma + mb);
            assert(x == 0 <==> pa == 0 && pb == 0);
            Double::compose(na, m)
        } else if pa == pb {
            assert(x == 0);
            Double { bits: 0 }
        } else if pa > pb {
            let m = Double::subtract_magnitudes(pa, pb);
            assert(na ==> x == -(ma - mb));
            assert(!na ==> x == ma - mb);
            Double::compose(na, m)
        } else {
            let m = Double::subtract_magnitudes(pb, pa);
            assert(na ==> x == mb - ma);
            assert(!na ==> x == -(mb - ma));
            Double::compose(!na, m)
        }
    }

    /// Multiplies this value by `other`.
    pub fn multiply(self, other: Double) -> (r: Double)
        ensures
            r == self.multiply_spec(other),
    {
        let negative = self.is_sign_negative() != other.is_sign_negative();
        let pa: u64 = self.abs().to_bits();
        let pb: u64 = other.abs().to_bits();
        if pa > DOUBLE_INFINITY || pb > DOUBLE_INFINITY {
            return Double { bits: DOUBLE_QUIET_NAN };
        }
        if pa == DOUBLE_INFINITY || pb == DOUBLE_INFINITY {
            if pa == 0 || pb == 0 {
                return Double { bits: DOUBLE_QUIET_NAN };
            }
            return Double::compose(negative, DOUBLE_INFINITY);
        }
        let (qa, sa) = Double::decompose(pa);
        let (qb, sb) = Double::decompose(pb);
        proof {
            lemma2_to64();
            lemma2_to64_rest();
            assert(sa * sb <= 0x20_0000_0000_0000 * 0x20_0000_0000_0000) by (nonlinear_arith)
                requires
                    sa <= 0x20_0000_0000_0000,
                    sb <= 0x20_0000_0000_0000,
            ;
        }
        let n: u128 = (sa as u128) * (sb as u128);
        proof {
            lemma_pow2_adds(qa as nat, qb as nat);
            assert(n * pow2((qa + qb) as nat) == (sa * pow2(qa as nat)) * (sb * pow2(qb as nat)))
                by (nonlinear_arith)
                requires
                    n == sa * sb,
                    pow2((qa + qb) as nat) == pow2(qa as nat) * pow2(qb as nat),
            ;
            lemma_round_scaled_shift(52, 2047, n as nat, (qa + qb) as nat, -1074);
            assert(2047 * pow2(52) == 0x7FF0_0000_0000_0000);
        }
        let m: u64 = round_to_pattern(52, 2047, n, (qa + qb) as i32 - 1074);
        Double::compose(negative, m)
    }
}

/// Only the pattern zero encodes the magnitude zero.
pub proof fn lemma_magnitude_zero(m: nat)
    ensures
        magnitude(52, m) == 0 <==> m == 0,
{
    lemma_pow2_pos(52);
    assert(magnitude(52, 0) == 0);
    if m > 0 {
        lemma_magnitude_increases(52, 0, m);
    }
}

/// The value with a given sign and a pattern below the sign bit has that
/// sign and that pattern.
pub proof fn lemma_double_of(negative: bool, pattern: nat)
    requires
        pattern < 0x8000_0000_0000_0000,
    ensures
        double_of(negative, pattern).negative() == negative,
        double_of(negative, pattern).pattern() == pattern,
{
}

/// The difference of a finite value below `2^128` in magnitude and any
/// finite value is finite.
pub proof fn lemma_subtract_finite(a: Double, b: Double)
    requires
        a.finite(),
        b.finite(),
        a.magnitude() < pow2(1202),
    ensures
        a.subtract_spec(b).finite(),
{
    lemma2_to64();
    lemma2_to64_rest();
    let x = a.value() - b.value();
    let top: nat = 0x7FEF_FFFF_FFFF_FFFF;
    let s: nat = 0x1F_FFFF_FFFF_FFFF;
    assert(top == ordinal(52, 2045, s));
    lemma_magnitude_of_ordinal(52, 2045, s);
    if b.pattern() < top {
        lemma_magnitude_increases(52, b.pattern(), top);
    }
    let e = (pow2(1202) - 1) as nat;
    lemma_pow2_increases(1203, 2045);
    lemma_pow2_unfold(1203);
    lemma_absorb_sum(2045, s, e);
    let bound = s * pow2(2045) + e;
    if x != 0 {
        let n: nat = if x < 0 {
            (-x) as nat
        } else {
            x as nat
        };
        assert(n <= bound);
        crate::rounding::lemma_round_scaled_monotonic(52, 2047, n, bound, 0);
        lemma_double_of(x < 0, round_scaled(52, 2047, n, 0));
    }
}

/// The product of a finite value below one in magnitude and a finite value
/// is finite and not larger in magnitude than the latter.
pub proof fn lemma_multiply_shrinks(a: Double, b: Double)
    requires
        a.finite(),
        b.finite(),
        a.magnitude() <= pow2(1074),
    ensures
        a.multiply_spec(b).finite(),
        a.multiply_spec(b).pattern() <= b.pattern(),
        a.multiply_spec(b).magnitude() <= b.magnitude(),
        a.multiply_spec(b).negative() == (a.negative() != b.negative()),
        a.multiply_spec(b).pattern() == round_scaled(
            52,
            2047,
            a.magnitude() * b.magnitude(),
            -1074,
        ),
{
    lemma2_to64();
    lemma2_to64_rest();
    assert(2047 * pow2(52) == 0x7FF0_0000_0000_0000);
    let n = a.magnitude() * b.magnitude();
    let bound = b.magnitude() * pow2(1074);
    assert(n <= bound) by (nonlinear_arith)
        requires
            n == a.magnitude() * b.magnitude(),
            bound == b.magnitude() * pow2(1074),
            a.magnitude() <= pow2(1074),
    ;
    crate::rounding::lemma_round_scaled_exact(52, 2047, b.pattern(), 1074);
    crate::rounding::lemma_round_scaled_monotonic(52, 2047, n, bound, -1074);
    let m = round_scaled(52, 2047, n, -1074);
    lemma_double_of(a.negative() != b.negative(), m);
    if m < b.pattern() {
        lemma_magnitude_increases(52, m, b.pattern());
    }
}

/// The product of a zero and a finite value is a zero.
pub proof fn lemma_multiply_zero(a: Double, b: Double)
    requires
        a.finite(),
        b.finite(),
        a.pattern() == 0 || b.pattern() == 0,
    ensures
        a.multiply_spec(b).pattern() == 0,
{
    lemma2_to64();
    lemma2_to64_rest();
    assert(2047 * pow2(52) == 0x7FF0_0000_0000_0000);
    assert(magnitude(52, 0) == 0);
    let n = a.magnitude() * b.magnitude();
    assert(n == 0 && magnitude(52, 0) * pow2(1074) == 0) by (nonlinear_arith)
        requires
            n == a.magnitude() * b.magnitude(),
            a.magnitude() == 0 || b.magnitude() == 0,
            magnitude(52, 0) == 0,
    ;
    crate::rounding::lemma_round_scaled_exact(52, 2047, 0, 1074);
    lemma_double_of(a.negative() != b.negative(), 0);
}

/// Subtracting a zero leaves the value as it is; a zero may change its sign.
pub proof fn lemma_subtract_zero(a: Double, z: Double)
    requires
        a.finite(),
        z.pattern() == 0,
    ensures
        a.subtract_spec(z).finite(),
        a.subtract_spec(z).value() == a.value(),
        a.subtract_spec(z).pattern() == a.pattern(),
        a.pattern() != 0 ==> a.subtract_spec(z) == a,
{
    lemma2_to64();
    lemma2_to64_rest();
    assert(2047 * pow2(52) == 0x7FF0_0000_0000_0000);
    assert(magnitude(52, 0) == 0);
    lemma_magnitude_zero(a.pattern());
    let x = a.value() - z.value();
    assert(x == a.value());
    if x != 0 {
        assert(a.magnitude() * pow2(0) == a.magnitude()) by (nonlinear_arith)
            requires
                pow2(0) == 1,
        ;
        crate::rounding::lemma_round_scaled_exact(52, 2047, a.pattern(), 0);
        lemma_double_of(a.negative(), a.pattern());
    } else {
        lemma_double_of(a.negative() && !z.negative(), 0);
    }
}

/// The difference of two finite values that are equal is a zero.
pub proof fn lemma_subtract_equal(a: Double, b: Double)
    requires
        a.finite(),
        b.finite(),
        a.value() == b.value(),
    ensures
        a.subtract_spec(b).pattern() == 0,
{
    lemma_double_of(a.negative() && !b.negative(), 0);
}

/// The retained part of a rounded distance does not exceed the distance.
///
/// Let a distance of `x` units be rounded, the result multiplied by a
/// coefficient below one, and the product rounded again.  Where the first
/// rounding goes up, the second result could exceed `x` if the product
/// rounded back up to the rounded distance; the lemma shows that it cannot,
/// as the largest coefficient below one is `1 - 2^-53`.
pub proof fn lemma_retained_part_bounded(beta: nat, x: nat)
    requires
        beta < 0x3FF0_0000_0000_0000,
        nearest_even(52, x, 1) < 0x7FF0_0000_0000_0000,
    ensures
        magnitude(
            52,
            nearest_even(
                52,
                magnitude(52, beta) * magnitude(52, nearest_even(52, x, 1)),
                pow2(1074),
            ),
        ) <= x,
{
    lemma2_to64();
    lemma2_to64_rest();
    let unit = pow2(1074);
    lemma_pow2_pos(1074);
    let m = nearest_even(52, x, 1);
    let big = magnitude(52, m);
    let b = magnitude(52, beta);
    let n2 = b * big;
    let r = nearest_even(52, n2, unit);
    // the largest coefficient below one
    let below_one: nat = 0x3FEF_FFFF_FFFF_FFFF;
    let all_ones: nat = 0x1F_FFFF_FFFF_FFFF;
    assert(below_one == ordinal(52, 1021, all_ones));
    lemma_magnitude_of_ordinal(52, 1021, all_ones);
    if beta < below_one {
        lemma_magnitude_increases(52, beta, below_one);
    }
    let h = pow2(1021);
    lemma_pow2_adds(53, 1021);
    assert(unit == pow2(53) * h);
    assert(b <= all_ones * h);
    // rounding the product of the rounded distance with one gives it back
    crate::pattern::lemma_nearest_even_exact(52, m, unit);
    assert(n2 <= big * unit) by (nonlinear_arith)
        requires
            n2 == b * big,
            b <= all_ones * h,
            unit == pow2(53) * h,
            all_ones < pow2(53),
            h > 0,
    {
        assert(all_ones * h <= pow2(53) * h);
    }
    crate::pattern::lemma_nearest_even_monotonic(52, n2, big * unit, unit);
    assert(r <= m);
    if r < m {
        lemma_magnitude_increases(52, r, m);
    }
    crate::pattern::lemma_floor_exists(52, x, 1);
    let g = crate::pattern::floor_pattern(52, x, 1);
    assert(magnitude(52, g) * 1 == magnitude(52, g));
    assert(magnitude(52, g + 1) * 1 == magnitude(52, g + 1));
    if m == g {
        // rounded down: the rounded distance is at most the distance
    } else {
        // rounded up, so the distance lies strictly between two neighbours
        assert(m == g + 1);
        assert(magnitude(52, g) < x < big);
        lemma_ordinal_decomposition(52, m);
        let q = quantum_exp(52, m);
        let s = significand(52, m);
        let u = pow2(q);
        lemma_pow2_pos(q);
        if q == 0 {
            // neighbours one unit apart leave no room for the distance
            assert(ordinal(52, 0, (s - 1) as nat) == g);
            lemma_magnitude_of_ordinal(52, 0, (s - 1) as nat);
            assert(big == s * 1 && magnitude(52, g) == (s - 1) * 1);
            assert(big == magnitude(52, g) + 1);
        } else if s > pow2(52) {
            // the predecessor lies in the same binade, and the product
            // stays below the midpoint
            assert(ordinal(52, q, (s - 1) as nat) == g);
            lemma_magnitude_of_ordinal(52, q, (s - 1) as nat);
            let a = magnitude(52, g);
            assert(2 * n2 < (a + big) * unit) by (nonlinear_arith)
                requires
                    n2 == b * big,
                    b <= all_ones * h,
                    unit == pow2(53) * h,
                    all_ones == pow2(53) - 1,
                    big == s * u,
                    a == (s - 1) * u,
                    s > pow2(52),
                    pow2(53) == 2 * pow2(52),
                    h > 0,
                    u > 0,
            {
                let k = pow2(53);
                // 2 * n2 <= 2 * (k - 1) * h * s * u
                assert(b * big <= (all_ones * h) * (s * u));
                assert((all_ones * h) * (s * u) == ((k - 1) * s) * (h * u));
                // (a + big) * unit == (2 s - 1) * u * k * h
                assert((a + big) * unit == ((2 * s - 1) * k) * (h * u));
                // 2 (k - 1) s < (2 s - 1) k  as  k < 2 s
                assert(2 * ((k - 1) * s) < (2 * s - 1) * k);
                assert(h * u > 0);
                assert(2 * (((k - 1) * s) * (h * u)) < ((2 * s - 1) * k) * (h * u));
            }
            crate::pattern::lemma_nearest_even_below_midpoint(52, n2, unit, g);
            if r < g {
                lemma_magnitude_increases(52, r, g);
            }
        } else {
            // the rounded distance is a power of two, its predecessor lies in
            // the binade below, and the product does not exceed it
            assert(s == pow2(52));
            let t = (q - 1) as nat;
            assert(ordinal(52, t, all_ones) == g) by (nonlinear_arith)
                requires
                    ordinal(52, t, all_ones) == t * pow2(52) + all_ones,
                    m == q * pow2(52) + s,
                    s == pow2(52),
                    all_ones == 2 * pow2(52) - 1,
                    g == m - 1,
                    t == q - 1,
            ;
            lemma_magnitude_of_ordinal(52, t, all_ones);
            lemma_pow2_unfold(q);
            let a = magnitude(52, g);
            assert(n2 <= a * unit) by (nonlinear_arith)
                requires
                    n2 == b * big,
                    b <= all_ones * h,
                    unit == pow2(53) * h,
                    big == s * u,
                    s == pow2(52),
                    pow2(53) == 2 * pow2(52),
                    u == 2 * pow2(t),
                    a == all_ones * pow2(t),
                    h > 0,
            {
                let k = pow2(52);
                let v = pow2(t);
                assert(b * big <= (all_ones * h) * big);
                assert((all_ones * h) * (k * (2 * v)) == (all_ones * v) * ((2 * k) * h));
            }
            crate::pattern::lemma_nearest_even_exact(52, g, unit);
            crate::pattern::lemma_nearest_even_monotonic(52, n2, a * unit, unit);
            if r < g {
                lemma_magnitude_increases(52, r, g);
            }
        }
    }
}

/// A number of units, positive or negative, rounded to the nearest value of
/// binary64, ties to even.  The exponent range is not limited here.
pub open spec fn rounded_value(x: int) -> int {
    if x >= 0 {
        magnitude(52, nearest_even(52, x as nat, 1)) as int
    } else {
        -(magnitude(52, nearest_even(52, (-x) as nat, 1)) as int)
    }
}

/// A finite difference has the value of the exact difference, rounded.
pub proof fn lemma_subtract_value(a: Double, b: Double)
    requires
        a.finite(),
        b.finite(),
        a.subtract_spec(b).finite(),
    ensures
        a.subtract_spec(b).value() == rounded_value(a.value() - b.value()),
        a.value() != b.value() ==> a.subtract_spec(b).negative() == (a.value() < b.value()),
        a.value() > b.value() ==> a.subtract_spec(b).pattern() == nearest_even(
            52,
            (a.value() - b.value()) as nat,
            1,
        ),
        a.value() < b.value() ==> a.subtract_spec(b).pattern() == nearest_even(
            52,
            (b.value() - a.value()) as nat,
            1,
        ),
        a.value() == b.value() ==> a.subtract_spec(b).pattern() == 0,
{
    lemma2_to64();
    lemma2_to64_rest();
    assert(2047 * pow2(52) == 0x7FF0_0000_0000_0000);
    assert(magnitude(52, 0) == 0);
    let x = a.value() - b.value();
    if x == 0 {
        lemma_double_of(a.negative() && !b.negative(), 0);
        assert(magnitude(52, 0) * 1 == 0);
        lemma_nearest_even_exact(52, 0, 1);
    } else {
        let n: nat = if x < 0 {
            (-x) as nat
        } else {
            x as nat
        };
        assert(n * pow2(0) == n) by (nonlinear_arith)
            requires
                pow2(0) == 1,
        ;
        let m = round_scaled(52, 2047, n, 0);
        if m < 0x8000_0000_0000_0000 {
            lemma_double_of(x < 0, m);
        }
    }
}

/// A finite value is its own rounded value.
pub proof fn lemma_rounded_value_exact(a: Double)
    ensures
        rounded_value(a.value()) == a.value(),
{
    assert(a.magnitude() * 1 == a.magnitude());
    lemma_nearest_even_exact(52, a.pattern(), 1);
}

/// Rounding keeps the order of values.
pub proof fn lemma_rounded_value_monotonic(x: int, y: int)
    requires
        x <= y,
    ensures
        rounded_value(x) <= rounded_value(y),
{
    if x >= 0 {
        crate::pattern::lemma_nearest_even_monotonic(52, x as nat, y as nat, 1);
        let mx = nearest_even(52, x as nat, 1);
        let my = nearest_even(52, y as nat, 1);
        if mx < my {
            lemma_magnitude_increases(52, mx, my);
        }
    } else if y < 0 {
        crate::pattern::lemma_nearest_even_monotonic(52, (-y) as nat, (-x) as nat, 1);
        let mx = nearest_even(52, (-x) as nat, 1);
        let my = nearest_even(52, (-y) as nat, 1);
        if my < mx {
            lemma_magnitude_increases(52, my, mx);
        }
    }
}

} // verus!
