//! Rounding of exact binary quantities to the patterns of a format.
//!
//! Every arithmetic operation of this crate computes its exact result as an
//! integer significand times a power of two and hands it to
//! [`round_to_pattern`], which rounds to nearest, ties to even.

use crate::pattern::{
    floor_pattern,
    lemma_floor_exists,
    lemma_magnitude_increases,
    lemma_magnitude_of_ordinal,
    lemma_nearest_even_of_ordinal,
    magnitude,
    nearest_even,
    ordinal,
    ordinal_ok,
};
use vstd::arithmetic::power2::{
    lemma2_to64,
    lemma_pow2_adds,
    lemma_pow2_pos,
    lemma_pow2_strictly_increases,
    lemma_pow2_unfold,
    pow2,
};
use vstd::prelude::*;
use vstd::std_specs::bits::u64_leading_zeros;

verus! {

/// Powers of two are ordered as their exponents are.
pub proof fn lemma_pow2_increases(a: nat, b: nat)
    requires
        a <= b,
    ensures
        pow2(a) <= pow2(b),
{
    if a < b {
        lemma_pow2_strictly_increases(a, b);
    }
}

/// A number below `2^x` times `2^y` is below `2^(x + y)`, and likewise for
/// numbers that are at least `2^x`.
pub proof fn lemma_pow2_scale_bounds(a: nat, x: nat, y: nat)
    ensures
        a < pow2(x) ==> a * pow2(y) < pow2(x + y),
        a >= pow2(x) ==> a * pow2(y) >= pow2(x + y),
{
    lemma_pow2_adds(x, y);
    lemma_pow2_pos(y);
    if a < pow2(x) {
        assert(a * pow2(y) < pow2(x) * pow2(y)) by (nonlinear_arith)
            requires
                a < pow2(x),
                pow2(y) > 0,
        ;
    } else {
        assert(a * pow2(y) >= pow2(x) * pow2(y)) by (nonlinear_arith)
            requires
                a >= pow2(x),
                pow2(y) > 0,
        ;
    }
}

/// Dividing by `2^y` takes `y` off the exponents that bound a number.
pub proof fn lemma_pow2_div_bounds(a: nat, x: nat, y: nat)
    requires
        y <= x,
    ensures
        a < pow2(x) ==> a / pow2(y) < pow2((x - y) as nat),
        a >= pow2(x) ==> a / pow2(y) >= pow2((x - y) as nat),
{
    let u = pow2(y);
    let k = pow2((x - y) as nat);
    lemma_pow2_adds((x - y) as nat, y);
    lemma_pow2_pos(y);
    assert(pow2(x) == k * u);
    let s = a / u;
    assert(a == s * u + a % u && 0 <= a % u < u && a < (s + 1) * u) by (nonlinear_arith)
        requires
            s == a / u,
            u > 0,
    ;
    if a < pow2(x) {
        assert(s < k) by (nonlinear_arith)
            requires
                s * u <= a,
                a < k * u,
                u > 0,
        ;
    } else {
        assert(s >= k) by (nonlinear_arith)
            requires
                a < (s + 1) * u,
                a >= k * u,
                u > 0,
        ;
    }
}

/// The number of leading zeros bounds a number between two powers of two.
pub proof fn lemma_leading_zeros(i: u64)
    ensures
        0 <= u64_leading_zeros(i) <= 64,
        i == 0 <==> u64_leading_zeros(i) == 64,
        i > 0 ==> pow2((63 - u64_leading_zeros(i)) as nat) <= i < pow2(
            (64 - u64_leading_zeros(i)) as nat,
        ),
    decreases i,
{
    reveal(u64_leading_zeros);
    if i > 0 {
        lemma_leading_zeros(i / 2);
        if i == 1 {
            lemma2_to64();
            assert(u64_leading_zeros(0) == 64);
        } else {
            let z = u64_leading_zeros(i / 2);
            lemma_pow2_unfold((64 - z + 1) as nat);
            lemma_pow2_unfold((63 - z + 1) as nat);
        }
    }
}

/// The number of bits of `x`: the least `len` with `x < 2^len`.
pub fn bit_length(x: u128) -> (len: u32)
    ensures
        len <= 128,
        x < pow2(len as nat),
        len > 0 ==> pow2((len - 1) as nat) <= x,
        x == 0 <==> len == 0,
{
    let hi: u64 = (x / 0x1_0000_0000_0000_0000) as u64;
    let lo: u64 = (x % 0x1_0000_0000_0000_0000) as u64;
    proof {
        lemma2_to64();
        lemma_leading_zeros(hi);
        lemma_leading_zeros(lo);
    }
    if hi > 0 {
        let z: u32 = hi.leading_zeros();
        proof {
            lemma_pow2_scale_bounds(hi as nat, (64 - z) as nat, 64);
            lemma_pow2_scale_bounds(hi as nat, (63 - z) as nat, 64);
            lemma_pow2_scale_bounds((hi + 1) as nat, (64 - z) as nat, 64);
            assert(x == hi * 0x1_0000_0000_0000_0000 + lo);
            assert(x < (hi + 1) * pow2(64));
            if hi + 1 == pow2((64 - z) as nat) {
                lemma_pow2_adds((64 - z) as nat, 64);
            }
        }
        128 - z
    } else {
        64 - lo.leading_zeros()
    }
}

/// The numerator of `sig * 2^exp` written as a fraction whose denominator is
/// a power of two.
pub open spec fn scaled_num(sig: nat, exp: int) -> nat {
    if exp >= 0 {
        sig * pow2(exp as nat)
    } else {
        sig
    }
}

/// The denominator of `sig * 2^exp` written as a fraction.
pub open spec fn scaled_den(exp: int) -> nat {
    if exp >= 0 {
        1
    } else {
        pow2((-exp) as nat)
    }
}

/// The pattern of infinity in a format with `p` fraction bits whose largest
/// exponent field is `emax`.
pub open spec fn infinity_pattern(p: nat, emax: nat) -> nat {
    emax * pow2(p)
}

/// The magnitude `sig * 2^exp`, in units of the smallest subnormal, rounded
/// to nearest, ties to even, in the format with `p` fraction bits and largest
/// exponent field `emax`.  Magnitudes that round out of range give the
/// pattern of infinity.
pub open spec fn round_scaled(p: nat, emax: nat, sig: nat, exp: int) -> nat {
    let m = nearest_even(p, scaled_num(sig, exp), scaled_den(exp));
    if m >= infinity_pattern(p, emax) {
        infinity_pattern(p, emax)
    } else {
        m
    }
}

/// `sig * 2^exp` where the quantum is `2^q` with `q <= exp`: the value is
/// representable and rounds to itself.
proof fn lemma_round_exact(p: nat, sig: nat, exp: int, q: nat, s: nat)
    requires
        p >= 1,
        q <= exp,
        s == sig * pow2((exp - q) as nat),
        ordinal_ok(p, q, s),
        s < pow2(p + 1),
    ensures
        nearest_even(p, scaled_num(sig, exp), scaled_den(exp)) == ordinal(p, q, s),
{
    let n = scaled_num(sig, exp);
    lemma_pow2_adds((exp - q) as nat, q);
    lemma_pow2_pos(q);
    assert(n == s * pow2(q) * 1 + 0) by (nonlinear_arith)
        requires
            n == sig * pow2(exp as nat),
            s == sig * pow2((exp - q) as nat),
            pow2(exp as nat) == pow2((exp - q) as nat) * pow2(q),
    ;
    lemma_nearest_even_of_ordinal(p, q, s, n, 1, 0);
}

/// `sig * 2^exp` where the quantum `2^q` is `r` binary places above `2^exp`:
/// the `r` low bits of `sig` decide the direction.
proof fn lemma_round_inexact(p: nat, sig: nat, exp: int, q: nat, r: nat, s: nat, rem: nat)
    requires
        p >= 1,
        r == q - exp,
        r > 0,
        sig == s * pow2(r) + rem,
        rem < pow2(r),
        ordinal_ok(p, q, s),
        s < pow2(p + 1),
    ensures
        nearest_even(p, scaled_num(sig, exp), scaled_den(exp)) == if 2 * rem < pow2(r) || (2 * rem
            == pow2(r) && s % 2 == 0) {
            ordinal(p, q, s)
        } else {
            ordinal(p, q, s) + 1
        },
{
    let n = scaled_num(sig, exp);
    let d = scaled_den(exp);
    let c: nat = if exp >= 0 {
        pow2(exp as nat)
    } else {
        1
    };
    let u = pow2(q);
    let v = pow2(r);
    lemma_pow2_pos(q);
    lemma_pow2_pos(r);
    // in both cases  2^q * d == 2^r * c  and  n == sig * c
    if exp >= 0 {
        lemma_pow2_adds(r, exp as nat);
        lemma_pow2_pos(exp as nat);
        assert(u * d == v * c) by (nonlinear_arith)
            requires
                u == v * c,
                d == 1,
        ;
    } else {
        lemma_pow2_adds(q, (-exp) as nat);
        lemma_pow2_pos((-exp) as nat);
        assert(u * d == v * c) by (nonlinear_arith)
            requires
                v == u * d,
                c == 1,
        ;
    }
    assert(n == sig * c) by (nonlinear_arith)
        requires
            exp >= 0 ==> n == sig * c,
            exp < 0 ==> n == sig && c == 1,
    ;
    let e = rem * c;
    assert(n == s * u * d + e && e < u * d && (2 * e < u * d <==> 2 * rem < v) && (2 * e == u * d
        <==> 2 * rem == v)) by (nonlinear_arith)
        requires
            n == sig * c,
            sig == s * v + rem,
            rem < v,
            u * d == v * c,
            e == rem * c,
            c > 0,
    {
        assert(s * u * d == s * (u * d));
        assert(sig * c == s * (v * c) + rem * c);
    }
    lemma_nearest_even_of_ordinal(p, q, s, n, d, e);
}

/// A magnitude of at least `2^k` rounds to a pattern that is not below the
/// pattern of `2^k`.
proof fn lemma_round_large(p: nat, emax: nat, sig: nat, exp: int, len: nat)
    requires
        p >= 1,
        emax >= 1,
        len >= 1,
        pow2((len - 1) as nat) <= sig,
        len - 1 + exp >= p + emax - 1,
    ensures
        nearest_even(p, scaled_num(sig, exp), scaled_den(exp)) >= infinity_pattern(p, emax),
{
    let n = scaled_num(sig, exp);
    let d = scaled_den(exp);
    let inf = infinity_pattern(p, emax);
    let k = (p + emax - 1) as nat;
    // the pattern of infinity encodes 2^k
    lemma_pow2_unfold(p + 1);
    lemma_pow2_pos(p);
    assert(inf == ordinal(p, (emax - 1) as nat, pow2(p))) by (nonlinear_arith)
        requires
            inf == emax * pow2(p),
            ordinal(p, (emax - 1) as nat, pow2(p)) == (emax - 1) * pow2(p) + pow2(p),
            emax >= 1,
    ;
    lemma_magnitude_of_ordinal(p, (emax - 1) as nat, pow2(p));
    lemma_pow2_adds(p, (emax - 1) as nat);
    assert(magnitude(p, inf) == pow2(k));
    // 2^k * d <= n
    if exp >= 0 {
        lemma_pow2_scale_bounds(sig, (len - 1) as nat, exp as nat);
        lemma_pow2_increases(k, (len - 1 + exp) as nat);
        assert(pow2(k) * d == pow2(k)) by (nonlinear_arith)
            requires
                d == 1,
        ;
    } else {
        lemma_pow2_adds(k, (-exp) as nat);
        lemma_pow2_increases((k - exp) as nat, (len - 1) as nat);
    }
    assert(magnitude(p, inf) * d <= n);
    lemma_pow2_pos((-exp) as nat);
    lemma_floor_exists(p, n, d);
    let f = floor_pattern(p, n, d);
    if f < inf {
        if f + 1 < inf {
            lemma_magnitude_increases(p, f + 1, inf);
        }
        assert(magnitude(p, f + 1) * d <= magnitude(p, inf) * d) by (nonlinear_arith)
            requires
                magnitude(p, f + 1) <= magnitude(p, inf),
                d > 0,
        ;
    }
}

/// A magnitude below half the smallest subnormal rounds to zero.
proof fn lemma_round_tiny(p: nat, sig: nat, exp: int, k: nat)
    requires
        p >= 1,
        exp < 0,
        sig < pow2(k),
        k + 1 <= -exp,
    ensures
        nearest_even(p, scaled_num(sig, exp), scaled_den(exp)) == 0,
{
    let d = scaled_den(exp);
    lemma_pow2_increases(k + 1, (-exp) as nat);
    lemma_pow2_unfold(k + 1);
    lemma_pow2_pos(p + 1);
    lemma2_to64();
    assert(pow2(0) * d == d) by (nonlinear_arith)
        requires
            pow2(0) == 1,
    ;
    assert(sig == 0 * pow2(0) * d + sig) by (nonlinear_arith);
    assert(0 * pow2(p) == 0);
    lemma_nearest_even_of_ordinal(p, 0, 0, sig, d, sig);
}

/// Shifting one to the left gives a power of two.
pub proof fn lemma_u128_one_shl(r: u128)
    requires
        r < 128,
    ensures
        (1u128 << r) == pow2(r as nat),
    decreases r,
{
    if r == 0 {
        assert(1u128 << 0u128 == 1u128) by (bit_vector);
        lemma2_to64();
    } else {
        let h = 1u128 << ((r - 1) as u128);
        assert(h < 0x8000_0000_0000_0000_0000_0000_0000_0000u128 && (1u128 << r) == 2 * h)
            by (bit_vector)
            requires
                0 < r < 128,
                h == 1u128 << ((r - 1) as u128),
        ;
        lemma_u128_one_shl((r - 1) as u128);
        lemma_pow2_unfold(r as nat);
    }
}

/// Rounds the magnitude `sig * 2^exp`, in units of the smallest subnormal,
/// to nearest, ties to even, and returns the pattern of the result.  A
/// magnitude that rounds out of range gives the pattern of infinity.
///
/// `p` is the number of fraction bits of the format and `emax` its largest
/// exponent field, the one of infinity.
pub fn round_to_pattern(p: u32, emax: u32, sig: u128, exp: i32) -> (m: u64)
    requires
        1 <= p <= 52,
        2 <= emax <= 2047,
        sig < 0x8000_0000_0000_0000_0000_0000_0000_0000,
        -0x1_0000 <= exp <= 0x1_0000,
    ensures
        m == round_scaled(p as nat, emax as nat, sig as nat, exp as int),
        m <= infinity_pattern(p as nat, emax as nat),
        sig == 0 ==> m == 0,
{
    let ghost n = scaled_num(sig as nat, exp as int);
    let ghost d = scaled_den(exp as int);
    let pw: u64 = 1u64 << (p as u64);
    proof {
        lemma2_to64();
        vstd::arithmetic::power2::lemma2_to64_rest();
        lemma_pow2_increases(p as nat, 52);
        vstd::bits::lemma_u64_shl_is_mul(1, p as u64);
        assert(pw == pow2(p as nat));
        lemma_pow2_unfold((p + 1) as nat);
        lemma_pow2_pos((-exp) as nat);
    }
    assert(emax * pw <= 2047 * 0x10_0000_0000_0000) by (nonlinear_arith)
        requires
            emax <= 2047,
            pw <= 0x10_0000_0000_0000,
    ;
    let inf: u64 = (emax as u64) * pw;
    if sig == 0 {
        proof {
            assert(n == 0) by (nonlinear_arith)
                requires
                    n == 0 || n == 0 * pow2(exp as nat),
            ;
            assert(pow2(0) * d == d) by (nonlinear_arith)
                requires
                    pow2(0) == 1,
            ;
            assert(0 == 0 * pow2(0) * d + 0) by (nonlinear_arith);
            assert(0 * pow2(p as nat) == 0);
            lemma_nearest_even_of_ordinal(p as nat, 0, 0, 0, d, 0);
            assert(inf >= pw) by (nonlinear_arith)
                requires
                    inf == emax * pw,
                    emax >= 2,
            ;
        }
        return 0;
    }
    let len: u32 = bit_length(sig);
    proof {
        if len > 127 {
            lemma_pow2_increases(127, (len - 1) as nat);
            assert(pow2(127) == 0x8000_0000_0000_0000_0000_0000_0000_0000) by {
                lemma_pow2_adds(64, 63);
            }
        }
    }
    let top: i32 = (len as i32) - 1 + exp;
    if top >= ((p + emax) as i32) - 1 {
        proof {
            lemma_round_large(p as nat, emax as nat, sig as nat, exp as int, len as nat);
        }
        return inf;
    }
    let q: i32 = if top > p as i32 {
        top - p as i32
    } else {
        0
    };
    assert(q + 2 <= emax);
    assert((q + 2) * pw <= inf) by (nonlinear_arith)
        requires
            inf == emax * pw,
            q + 2 <= emax,
    ;
    if q <= exp {
        let shift: u64 = (exp - q) as u64;
        proof {
            // sig * 2^shift < 2^(p+1), and at least 2^p where q > 0
            assert(len + shift <= p + 1);
            lemma_pow2_scale_bounds(sig as nat, len as nat, shift as nat);
            lemma_pow2_increases((len + shift) as nat, (p + 1) as nat);
            lemma_pow2_increases(len as nat, 53);
            if q > 0 {
                assert(len - 1 + shift == p);
                lemma_pow2_scale_bounds(sig as nat, (len - 1) as nat, shift as nat);
            }
            vstd::bits::lemma_u64_shl_is_mul(sig as u64, shift);
        }
        let s: u64 = (sig as u64) << shift;
        proof {
            lemma_round_exact(p as nat, sig as nat, exp as int, q as nat, s as nat);
            assert(q * pw + s < (q + 2) * pw) by (nonlinear_arith)
                requires
                    s < 2 * pw,
            ;
        }
        return (q as u64) * pw + s;
    }
    let r: i32 = q - exp;
    if r >= 128 {
        proof {
            // only reachable without normalisation, where the quantum is 1
            assert(q == 0);
            assert(pow2(127) == 0x8000_0000_0000_0000_0000_0000_0000_0000) by {
                lemma_pow2_adds(64, 63);
            }
            lemma_round_tiny(p as nat, sig as nat, exp as int, 127);
            assert(inf >= pw) by (nonlinear_arith)
                requires
                    inf == emax * pw,
                    emax >= 2,
            ;
        }
        return 0;
    }
    let r128: u128 = r as u128;
    let s128: u128 = sig >> r128;
    let unit: u128 = 1u128 << r128;
    proof {
        lemma_u128_one_shl(r128);
        vstd::bits::lemma_u128_shr_is_div(sig, r128);
        lemma_pow2_pos(r as nat);
        assert(sig == s128 * unit + sig % unit && sig % unit < unit) by (nonlinear_arith)
            requires
                s128 == sig / unit,
                unit > 0,
        ;
        if q > 0 {
            assert(r == len - 1 - p);
            lemma_pow2_div_bounds(sig as nat, len as nat, r as nat);
            lemma_pow2_div_bounds(sig as nat, (len - 1) as nat, r as nat);
        } else {
            if len >= r {
                lemma_pow2_div_bounds(sig as nat, len as nat, r as nat);
                lemma_pow2_increases((len - r) as nat, (p + 1) as nat);
            } else {
                lemma_pow2_increases(len as nat, r as nat);
                assert(s128 == 0) by (nonlinear_arith)
                    requires
                        s128 == sig / unit,
                        sig < unit,
                ;
                lemma_pow2_pos((p + 1) as nat);
            }
        }
        assert(s128 < pow2((p + 1) as nat));
    }
    let rem: u128 = sig - s128 * unit;
    let half: u128 = unit / 2;
    let s: u64 = s128 as u64;
    proof {
        lemma_pow2_unfold(r as nat);
        assert(unit == 2 * half);
        lemma_round_inexact(
            p as nat,
            sig as nat,
            exp as int,
            q as nat,
            r as nat,
            s as nat,
            rem as nat,
        );
        assert(q * pw + s < (q + 2) * pw) by (nonlinear_arith)
            requires
                s < 2 * pw,
        ;
    }
    let lo: u64 = (q as u64) * pw + s;
    if rem > half || (rem == half && s % 2 == 1) {
        lo + 1
    } else {
        lo
    }
}

/// A power of two may move between the significand and the exponent.
pub proof fn lemma_round_scaled_shift(p: nat, emax: nat, sig: nat, k: nat, exp: int)
    ensures
        round_scaled(p, emax, sig * pow2(k), exp) == round_scaled(p, emax, sig, exp + k),
{
    lemma_pow2_pos(k);
    if exp >= 0 {
        lemma_pow2_adds(k, exp as nat);
        assert(sig * pow2(k) * pow2(exp as nat) == sig * pow2((exp + k) as nat))
            by (nonlinear_arith)
            requires
                pow2((exp + k) as nat) == pow2(k) * pow2(exp as nat),
        ;
    } else if exp + k >= 0 {
        let c = pow2((-exp) as nat);
        lemma_pow2_pos((-exp) as nat);
        lemma_pow2_adds((exp + k) as nat, (-exp) as nat);
        let n = sig * pow2((exp + k) as nat);
        assert(n * c == sig * pow2(k)) by (nonlinear_arith)
            requires
                n == sig * pow2((exp + k) as nat),
                pow2(k) == pow2((exp + k) as nat) * c,
        ;
        assert(1 * c == c);
        crate::pattern::lemma_nearest_even_scale(p, n, 1, c);
    } else {
        let c = pow2(k);
        let d = pow2((-exp - k) as nat);
        lemma_pow2_pos((-exp - k) as nat);
        lemma_pow2_adds((-exp - k) as nat, k);
        crate::pattern::lemma_nearest_even_scale(p, sig, d, c);
    }
}

/// A representable magnitude, written with `k` extra binary places, rounds
/// to itself.
pub proof fn lemma_round_scaled_exact(p: nat, emax: nat, m: nat, k: nat)
    requires
        m <= infinity_pattern(p, emax),
    ensures
        round_scaled(p, emax, magnitude(p, m) * pow2(k), -(k as int)) == m,
{
    let n = magnitude(p, m) * pow2(k);
    lemma_pow2_pos(k);
    if k == 0 {
        lemma2_to64();
        assert(n * pow2(0) == magnitude(p, m) * 1) by (nonlinear_arith)
            requires
                n == magnitude(p, m) * pow2(0),
                pow2(0) == 1,
        ;
        crate::pattern::lemma_nearest_even_exact(p, m, 1);
    } else {
        crate::pattern::lemma_nearest_even_exact(p, m, pow2(k));
    }
}

/// Rounding with saturation is monotonic.
pub proof fn lemma_round_scaled_monotonic(p: nat, emax: nat, n1: nat, n2: nat, exp: int)
    requires
        n1 <= n2,
    ensures
        round_scaled(p, emax, n1, exp) <= round_scaled(p, emax, n2, exp),
{
    lemma_pow2_pos((-exp) as nat);
    if exp >= 0 {
        lemma_pow2_pos(exp as nat);
        assert(n1 * pow2(exp as nat) <= n2 * pow2(exp as nat)) by (nonlinear_arith)
            requires
                n1 <= n2,
                pow2(exp as nat) > 0,
        ;
    }
    crate::pattern::lemma_nearest_even_monotonic(
        p,
        scaled_num(n1, exp),
        scaled_num(n2, exp),
        scaled_den(exp),
    );
}

/// The integer nearest to a magnitude, halfway cases away from zero:
/// `floor(x + 1/2)` for the magnitude `x = mag / one`.
pub open spec fn nearest_integer(mag: nat, one: nat) -> nat {
    (2 * mag + one) / (2 * one)
}

/// The magnitude of the value one in a format with `p` fraction bits and
/// exponent bias `bias`, in units of the smallest subnormal.
pub open spec fn magnitude_of_one(p: nat, bias: nat) -> nat {
    pow2((p + bias - 1) as nat)
}

/// A common factor of numerator and denominator does not change a quotient.
proof fn lemma_div_cancel(a: nat, b: nat, c: nat)
    requires
        b > 0,
        c > 0,
    ensures
        (a * c) / (b * c) == a / b,
{
    let q = a / b;
    let r = a % b;
    assert(a == q * b + r && 0 <= r < b) by (nonlinear_arith)
        requires
            q == a / b,
            r == a % b,
            b > 0,
    ;
    assert(a * c == q * (b * c) + r * c && r * c < b * c && b * c > 0) by (nonlinear_arith)
        requires
            a == q * b + r,
            0 <= r < b,
            c > 0,
    ;
    crate::pattern::lemma_div_mod_of_sum(q, b * c, r * c);
}

/// The integer nearest to the magnitude with pattern `pattern`, halfway
/// cases away from zero, but no more than 128.
///
/// `p` is the number of fraction bits of the format and `bias` its exponent
/// bias.
pub fn round_half_away(p: u32, bias: u32, pattern: u64) -> (n: u64)
    requires
        8 <= p <= 52,
        2 <= bias <= 1023,
        pattern < 0x8000_0000_0000_0000,
    ensures
        n <= 128,
        n == if nearest_integer(
            magnitude(p as nat, pattern as nat),
            magnitude_of_one(p as nat, bias as nat),
        ) < 128 {
            nearest_integer(
                magnitude(p as nat, pattern as nat),
                magnitude_of_one(p as nat, bias as nat),
            )
        } else {
            128
        },
{
    let ghost mag = magnitude(p as nat, pattern as nat);
    let ghost one = magnitude_of_one(p as nat, bias as nat);
    let pw: u64 = 1u64 << (p as u64);
    proof {
        lemma2_to64();
        vstd::arithmetic::power2::lemma2_to64_rest();
        lemma_pow2_increases(p as nat, 52);
        vstd::bits::lemma_u64_shl_is_mul(1, p as u64);
        assert(pw == pow2(p as nat));
        lemma_pow2_pos((p + bias - 1) as nat);
    }
    let e: u64 = pattern / pw;
    let frac: u64 = pattern % pw;
    if e + 1 < bias as u64 {
        proof {
            // below one half
            if e == 0 {
                lemma_pow2_increases(p as nat, (p + bias - 2) as nat);
                assert(pattern < pw) by (nonlinear_arith)
                    requires
                        e == pattern / pw,
                        e == 0,
                        pw > 0,
                ;
                assert(mag < pow2(p as nat));
            } else {
                assert(pattern >= pw) by (nonlinear_arith)
                    requires
                        e == pattern / pw,
                        e >= 1,
                        pw > 0,
                ;
                lemma_pow2_scale_bounds((pw + frac) as nat, (p + 1) as nat, (e - 1) as nat);
                lemma_pow2_unfold((p + 1) as nat);
                lemma_pow2_increases((p + e) as nat, (p + bias - 2) as nat);
            }
            lemma_pow2_unfold((p + bias - 1) as nat);
            assert(2 * mag + one < 2 * one);
            assert((2 * mag + one) / (2 * one) == 0) by (nonlinear_arith)
                requires
                    0 <= 2 * mag + one < 2 * one,
            ;
        }
        return 0;
    }
    proof {
        assert(e >= 1);
        assert(pattern >= pw) by (nonlinear_arith)
            requires
                e == pattern / pw,
                e >= 1,
                pw > 0,
        ;
        assert(mag == (pw + frac) * pow2((e - 1) as nat));
    }
    if e >= bias as u64 + 7 {
        proof {
            // at least 128
            lemma_pow2_scale_bounds((pw + frac) as nat, p as nat, (e - 1) as nat);
            lemma_pow2_increases((p + bias + 6) as nat, (p + e - 1) as nat);
            lemma_pow2_adds(7, (p + bias - 1) as nat);
            assert(mag >= 128 * one);
            assert((2 * mag + one) / (2 * one) >= 128) by (nonlinear_arith)
                requires
                    mag >= 128 * one,
                    one > 0,
            {
                assert(2 * mag + one >= 128 * (2 * one));
            }
        }
        return 128;
    }
    let sig: u64 = pw + frac;
    let k: u64 = (p as u64 + bias as u64 - 1) - e;
    proof {
        assert(p - 7 <= k <= p);
        lemma_pow2_increases(k as nat, p as nat);
        vstd::bits::lemma_u64_shl_is_mul(1, k);
    }
    let half: u64 = 1u64 << k;
    proof {
        vstd::bits::lemma_u64_shr_is_div((sig + half) as u64, (k + 1) as u64);
        let c = pow2(e as nat);
        lemma_pow2_pos(e as nat);
        lemma_pow2_pos((k + 1) as nat);
        lemma_pow2_unfold(e as nat);
        lemma_pow2_unfold((k + 1) as nat);
        lemma_pow2_adds(k as nat, e as nat);
        assert(2 * mag + one == (sig + half) * c) by (nonlinear_arith)
            requires
                mag == sig * pow2((e - 1) as nat),
                c == 2 * pow2((e - 1) as nat),
                one == half * c,
        ;
        assert(2 * one == pow2((k + 1) as nat) * c) by (nonlinear_arith)
            requires
                one == half * c,
                pow2((k + 1) as nat) == 2 * half,
        ;
        lemma_div_cancel((sig + half) as nat, pow2((k + 1) as nat), c);
        // below 128, as the magnitude is
        lemma_pow2_scale_bounds(sig as nat, (p + 1) as nat, (e - 1) as nat);
        lemma_pow2_increases((p + e) as nat, (p + bias + 6) as nat);
        lemma_pow2_adds(7, (p + bias - 1) as nat);
        assert(mag < 128 * one);
        assert((2 * mag + one) / (2 * one) <= 128) by (nonlinear_arith)
            requires
                mag < 128 * one,
                one > 0,
        {
            assert(2 * mag + one < 129 * (2 * one));
            assert(2 * mag + one < 128 * (2 * one) + 2 * one);
        }
    }
    (sig + half) >> (k + 1)
}

} // verus!
