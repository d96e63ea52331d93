//! The mathematics of IEEE 754 binary interchange formats, independent of the
//! width of the format.
//!
//! A non-negative value of a format with `p` fraction bits is identified by
//! its *magnitude pattern*: the encoding with the sign bit cleared, read as a
//! natural number.  Patterns enumerate the representable magnitudes in
//! increasing order, so rounding can be described on patterns alone.
//!
//! Magnitudes are measured in units of the smallest positive subnormal of the
//! format, which makes every representable magnitude a natural number.

use vstd::arithmetic::power2::{
    lemma_pow2_pos,
    lemma_pow2_strictly_increases,
    lemma_pow2_unfold,
    pow2,
};
use vstd::prelude::*;

verus! {

/// The magnitude encoded by pattern `m` in a format with `p` fraction bits,
/// in units of the smallest positive subnormal.
///
/// Patterns below `2^p` are zero and the subnormals, which encode their own
/// magnitude.  Above, the exponent field `m / 2^p` and the fraction field
/// `m % 2^p` encode `(2^p + fraction) * 2^(exponent - 1)`.  The formula is
/// deliberately not cut off at the largest finite pattern: the pattern that
/// encodes infinity stands for the first power of two that is out of range,
/// which is exactly the role it plays in rounding.
pub open spec fn magnitude(p: nat, m: nat) -> nat {
    if m < pow2(p) {
        m
    } else {
        (pow2(p) + m % pow2(p)) * pow2((m / pow2(p) - 1) as nat)
    }
}

/// The pattern made of quantum exponent `q` and integral significand `s`.
///
/// For `q == 0` and `s <= 2^(p+1)`, and for `q > 0` and
/// `2^p <= s <= 2^(p+1)`, this is the pattern of magnitude `s * 2^q`
/// (see [`lemma_magnitude_of_ordinal`]).
pub open spec fn ordinal(p: nat, q: nat, s: nat) -> nat {
    q * pow2(p) + s
}

/// Whether `(q, s)` is a quantum exponent and significand that [`ordinal`]
/// encodes faithfully.
pub open spec fn ordinal_ok(p: nat, q: nat, s: nat) -> bool {
    &&& s <= pow2(p + 1)
    &&& q > 0 ==> pow2(p) <= s
}

/// Quotient and remainder of `a * b + r` by `b`, for `r < b`.
pub proof fn lemma_div_mod_of_sum(a: nat, b: nat, r: nat)
    by (nonlinear_arith)
    requires
        b > 0,
        r < b,
    ensures
        (a * b + r) / b == a,
        (a * b + r) % b == r,
{
    let x = (a * b + r) as int;
    let q = x / (b as int);
    let m = x % (b as int);
    assert(x == q * b + m && 0 <= m < b);
    assert((q - a) * b == r - m);
    if q > a {
        assert((q - a) * b >= b);
    }
    if q < a {
        assert((q - a) * b <= -b);
    }
}

/// The magnitude of `ordinal(p, q, s)` is `s * 2^q`.
pub proof fn lemma_magnitude_of_ordinal(p: nat, q: nat, s: nat)
    requires
        ordinal_ok(p, q, s),
    ensures
        magnitude(p, ordinal(p, q, s)) == s * pow2(q),
{
    let b = pow2(p);
    lemma_pow2_pos(p);
    lemma_pow2_unfold(p + 1);
    assert(pow2(p + 1) == 2 * b);
    assert(pow2(0) == 1) by {
        lemma_pow2_unfold(1);
        vstd::arithmetic::power2::lemma2_to64();
    }
    let m = ordinal(p, q, s);
    if s < b {
        assert(q == 0);
        assert(0 * b == 0);
        assert(m == s);
        assert(s * 1 == s);
    } else if s < 2 * b {
        let f = (s - b) as nat;
        assert(m == (q + 1) * b + f) by (nonlinear_arith)
            requires
                m == q * b + s,
                f == s - b,
        ;
        lemma_div_mod_of_sum(q + 1, b, f);
        assert(m >= b) by (nonlinear_arith)
            requires
                m == (q + 1) * b + f,
                b > 0,
        ;
        assert(b + f == s);
    } else {
        assert(s == 2 * b);
        assert(m == (q + 2) * b + 0) by (nonlinear_arith)
            requires
                m == q * b + s,
                s == 2 * b,
        ;
        lemma_div_mod_of_sum(q + 2, b, 0);
        assert(m >= b) by (nonlinear_arith)
            requires
                m == (q + 2) * b + 0,
                b > 0,
        ;
        lemma_pow2_unfold(q + 1);
        assert((b + 0) * pow2(q + 1) == s * pow2(q)) by (nonlinear_arith)
            requires
                s == 2 * b,
                pow2(q + 1) == 2 * pow2(q),
        ;
    }
}

/// The quantum exponent of pattern `m`: the binary exponent of the distance
/// from its magnitude to the next representable magnitude.
pub open spec fn quantum_exp(p: nat, m: nat) -> nat {
    if m < pow2(p + 1) {
        0
    } else {
        (m / pow2(p) - 1) as nat
    }
}

/// The integral significand of pattern `m`: its magnitude in units of its
/// own quantum.
pub open spec fn significand(p: nat, m: nat) -> nat {
    if m < pow2(p + 1) {
        m
    } else {
        pow2(p) + m % pow2(p)
    }
}

/// A pattern decomposes into its quantum exponent and significand.
pub proof fn lemma_ordinal_decomposition(p: nat, m: nat)
    ensures
        m == ordinal(p, quantum_exp(p, m), significand(p, m)),
        ordinal_ok(p, quantum_exp(p, m), significand(p, m)),
        significand(p, m) < pow2(p + 1),
        magnitude(p, m) == significand(p, m) * pow2(quantum_exp(p, m)),
{
    let b = pow2(p);
    lemma_pow2_pos(p);
    lemma_pow2_unfold(p + 1);
    let q = quantum_exp(p, m);
    let s = significand(p, m);
    if m < 2 * b {
        assert(0 * b == 0);
    } else {
        let e = m / b;
        let f = m % b;
        assert(m == e * b + f && 0 <= f < b && e >= 2) by (nonlinear_arith)
            requires
                e == m / b,
                f == m % b,
                b > 0,
                m >= 2 * b,
        ;
        assert(m == (e - 1) * b + (b + f)) by (nonlinear_arith)
            requires
                m == e * b + f,
        ;
    }
    lemma_magnitude_of_ordinal(p, q, s);
}

/// Patterns are ordered as their magnitudes are.
pub proof fn lemma_magnitude_increases(p: nat, m1: nat, m2: nat)
    requires
        m1 < m2,
    ensures
        magnitude(p, m1) < magnitude(p, m2),
{
    let b = pow2(p);
    lemma_pow2_pos(p);
    lemma_pow2_unfold(p + 1);
    lemma_ordinal_decomposition(p, m1);
    lemma_ordinal_decomposition(p, m2);
    let q1 = quantum_exp(p, m1);
    let s1 = significand(p, m1);
    let q2 = quantum_exp(p, m2);
    let s2 = significand(p, m2);
    lemma_pow2_pos(q1);
    lemma_pow2_pos(q2);
    if q1 == q2 {
        assert(s1 < s2);
        assert(s1 * pow2(q1) < s2 * pow2(q1)) by (nonlinear_arith)
            requires
                s1 < s2,
                pow2(q1) > 0,
        ;
    } else if q1 < q2 {
        // s1 < 2^(p+1) and s2 >= 2^p, one binade apart at least
        lemma_pow2_unfold(q1 + 1);
        if q1 + 1 < q2 {
            lemma_pow2_strictly_increases(q1 + 1, q2);
        }
        assert(s1 * pow2(q1) < s2 * pow2(q2)) by (nonlinear_arith)
            requires
                s1 < 2 * b,
                b <= s2,
                2 * pow2(q1) <= pow2(q2),
                pow2(q1) > 0,
        ;
    } else {
        // q2 < q1 would put m2 below m1
        assert(q2 + 1 <= q1);
        assert(m1 >= m2) by (nonlinear_arith)
            requires
                m1 == q1 * b + s1,
                m2 == q2 * b + s2,
                q2 + 1 <= q1,
                s2 < 2 * b,
                b <= s1,
                b > 0,
        ;
    }
}

/// A pattern encodes at least its own number as magnitude.
pub proof fn lemma_magnitude_at_least(p: nat, m: nat)
    ensures
        magnitude(p, m) >= m,
    decreases m,
{
    if m > 0 {
        lemma_magnitude_at_least(p, (m - 1) as nat);
        lemma_magnitude_increases(p, (m - 1) as nat, m);
    }
}

/// Whether `m` is the pattern of the largest representable magnitude that
/// does not exceed the rational `n / d`.
pub open spec fn is_floor(p: nat, n: nat, d: nat, m: nat) -> bool {
    magnitude(p, m) * d <= n < magnitude(p, m + 1) * d
}

/// The pattern of the largest representable magnitude that does not exceed
/// `n / d`, for `d > 0`.
pub open spec fn floor_pattern(p: nat, n: nat, d: nat) -> nat {
    choose|m: nat| is_floor(p, n, d, m)
}

/// Round to nearest, ties to even: the pattern of the representable
/// magnitude nearest to `n / d`, and of the two nearest the one with the even
/// pattern where `n / d` lies halfway between them.
///
/// The exponent range is not limited here.  A result at or above the pattern
/// of infinity means that the rounded magnitude is out of range.
pub open spec fn nearest_even(p: nat, n: nat, d: nat) -> nat {
    let lo = floor_pattern(p, n, d);
    let below = n - magnitude(p, lo) * d;
    let above = magnitude(p, lo + 1) * d - n;
    if below < above || (below == above && lo % 2 == 0) {
        lo
    } else {
        lo + 1
    }
}

proof fn lemma_floor_search(p: nat, n: nat, d: nat, k: nat)
    requires
        d > 0,
        magnitude(p, k) * d <= n,
    ensures
        exists|m: nat| is_floor(p, n, d, m),
    decreases n - k,
{
    lemma_magnitude_at_least(p, k);
    assert(k <= n) by (nonlinear_arith)
        requires
            magnitude(p, k) * d <= n,
            magnitude(p, k) >= k,
            d > 0,
    ;
    if n < magnitude(p, k + 1) * d {
        assert(is_floor(p, n, d, k));
    } else {
        lemma_magnitude_at_least(p, k + 1);
        assert(k + 1 <= n) by (nonlinear_arith)
            requires
                magnitude(p, k + 1) * d <= n,
                magnitude(p, k + 1) >= k + 1,
                d > 0,
        ;
        lemma_floor_search(p, n, d, k + 1);
    }
}

/// Every non-negative rational has a floor among the patterns.
pub proof fn lemma_floor_exists(p: nat, n: nat, d: nat)
    requires
        d > 0,
    ensures
        is_floor(p, n, d, floor_pattern(p, n, d)),
{
    lemma_pow2_pos(p);
    assert(magnitude(p, 0) == 0);
    assert(magnitude(p, 0) * d == 0) by (nonlinear_arith)
        requires
            magnitude(p, 0) == 0,
    ;
    lemma_floor_search(p, n, d, 0);
}

/// The floor is unique.
pub proof fn lemma_floor_unique(p: nat, n: nat, d: nat, m: nat)
    requires
        d > 0,
        is_floor(p, n, d, m),
    ensures
        floor_pattern(p, n, d) == m,
{
    let f = floor_pattern(p, n, d);
    assert(is_floor(p, n, d, f));
    if f < m {
        if f + 1 < m {
            lemma_magnitude_increases(p, f + 1, m);
        }
        assert(magnitude(p, f + 1) * d <= magnitude(p, m) * d) by (nonlinear_arith)
            requires
                magnitude(p, f + 1) <= magnitude(p, m),
                d > 0,
        ;
    }
    if m < f {
        if m + 1 < f {
            lemma_magnitude_increases(p, m + 1, f);
        }
        assert(magnitude(p, m + 1) * d <= magnitude(p, f) * d) by (nonlinear_arith)
            requires
                magnitude(p, m + 1) <= magnitude(p, f),
                d > 0,
        ;
    }
}

/// Rounding `s * 2^q + e / d`, where the remainder `e / d` is less than the
/// quantum `2^q`: the result is the ordinal of `(q, s)` or its successor, as
/// the remainder compares with half a quantum.
pub proof fn lemma_nearest_even_of_ordinal(p: nat, q: nat, s: nat, n: nat, d: nat, e: nat)
    requires
        p >= 1,
        d > 0,
        ordinal_ok(p, q, s),
        s < pow2(p + 1),
        n == s * pow2(q) * d + e,
        e < pow2(q) * d,
    ensures
        nearest_even(p, n, d) == if 2 * e < pow2(q) * d || (2 * e == pow2(q) * d && s % 2 == 0) {
            ordinal(p, q, s)
        } else {
            ordinal(p, q, s) + 1
        },
{
    let lo = ordinal(p, q, s);
    let u = pow2(q);
    lemma_pow2_pos(q);
    lemma_pow2_pos(p);
    lemma_pow2_unfold(p);
    lemma_magnitude_of_ordinal(p, q, s);
    assert(ordinal(p, q, s + 1) == lo + 1);
    lemma_magnitude_of_ordinal(p, q, s + 1);
    assert(magnitude(p, lo) * d == s * u * d);
    assert(magnitude(p, lo + 1) * d == s * u * d + u * d) by (nonlinear_arith)
        requires
            magnitude(p, lo + 1) == (s + 1) * u,
    ;
    assert(is_floor(p, n, d, lo));
    lemma_floor_unique(p, n, d, lo);
    let half_p = pow2((p - 1) as nat);
    assert(lo % 2 == s % 2) by (nonlinear_arith)
        requires
            lo == q * (2 * half_p) + s,
    {
        assert(lo == 2 * (q * half_p) + s);
    }
}

/// Rounding depends on the rational only, not on the fraction that denotes
/// it.
pub proof fn lemma_nearest_even_scale(p: nat, n: nat, d: nat, c: nat)
    requires
        d > 0,
        c > 0,
    ensures
        nearest_even(p, n * c, d * c) == nearest_even(p, n, d),
{
    lemma_floor_exists(p, n, d);
    let f = floor_pattern(p, n, d);
    let a = magnitude(p, f);
    let b = magnitude(p, f + 1);
    assert(a * (d * c) == (a * d) * c && b * (d * c) == (b * d) * c && d * c > 0)
        by (nonlinear_arith)
        requires
            d > 0,
            c > 0,
    ;
    assert(a * d * c <= n * c < b * d * c) by (nonlinear_arith)
        requires
            a * d <= n < b * d,
            c > 0,
    ;
    assert(is_floor(p, n * c, d * c, f));
    lemma_floor_unique(p, n * c, d * c, f);
    let below = n - a * d;
    let above = b * d - n;
    assert(n * c - (a * d) * c == below * c && (b * d) * c - n * c == above * c)
        by (nonlinear_arith)
        requires
            below == n - a * d,
            above == b * d - n,
    ;
    assert((below < above <==> below * c < above * c) && (below == above <==> below * c == above
        * c)) by (nonlinear_arith)
        requires
            c > 0,
    ;
}

/// A representable magnitude rounds to itself.
pub proof fn lemma_nearest_even_exact(p: nat, m: nat, d: nat)
    requires
        d > 0,
    ensures
        nearest_even(p, magnitude(p, m) * d, d) == m,
{
    lemma_magnitude_increases(p, m, m + 1);
    assert(magnitude(p, m) * d < magnitude(p, m + 1) * d) by (nonlinear_arith)
        requires
            magnitude(p, m) < magnitude(p, m + 1),
            d > 0,
    ;
    lemma_floor_unique(p, magnitude(p, m) * d, d, m);
}

/// Rounding is monotonic: a larger rational does not round to a smaller
/// pattern.
pub proof fn lemma_nearest_even_monotonic(p: nat, n1: nat, n2: nat, d: nat)
    requires
        d > 0,
        n1 <= n2,
    ensures
        nearest_even(p, n1, d) <= nearest_even(p, n2, d),
{
    lemma_floor_exists(p, n1, d);
    lemma_floor_exists(p, n2, d);
    let f1 = floor_pattern(p, n1, d);
    let f2 = floor_pattern(p, n2, d);
    if f2 < f1 {
        if f2 + 1 < f1 {
            lemma_magnitude_increases(p, f2 + 1, f1);
        }
        assert(magnitude(p, f2 + 1) * d <= magnitude(p, f1) * d) by (nonlinear_arith)
            requires
                magnitude(p, f2 + 1) <= magnitude(p, f1),
                d > 0,
        ;
    }
    // with equal floors the remainders decide alike; otherwise the first
    // result is at most the successor of its floor
    assert(f1 <= f2);
}

/// A rational below the midpoint between the magnitudes of `f` and its
/// successor does not round above `f`.
pub proof fn lemma_nearest_even_below_midpoint(p: nat, n: nat, d: nat, f: nat)
    requires
        d > 0,
        2 * n < (magnitude(p, f) + magnitude(p, f + 1)) * d,
    ensures
        nearest_even(p, n, d) <= f,
{
    lemma_floor_exists(p, n, d);
    let g = floor_pattern(p, n, d);
    let a = magnitude(p, f);
    let b = magnitude(p, f + 1);
    lemma_magnitude_increases(p, f, f + 1);
    if g > f {
        // then the rational would be at least the magnitude of the successor
        if g > f + 1 {
            lemma_magnitude_increases(p, f + 1, g);
        }
        assert((a + b) * d < 2 * n) by (nonlinear_arith)
            requires
                magnitude(p, g) * d <= n,
                b <= magnitude(p, g),
                a < b,
                d > 0,
        {
            assert(b * d <= magnitude(p, g) * d);
            assert((a + b) * d < 2 * (b * d));
        }
    } else if g == f {
        assert(n - a * d < b * d - n) by (nonlinear_arith)
            requires
                2 * n < (a + b) * d,
        {
            assert((a + b) * d == a * d + b * d);
        }
    }
}

} // verus!
