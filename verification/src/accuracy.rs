//! How accurately the table holds `10^(dB/20)`.
//!
//! The gain `g = 10^(dB/20)` is irrational for most decibel values, but its
//! 20th power `10^dB` is rational.  That a table entry `T` differs from `g`
//! by less than one part in ten thousand, `|T - g| < g / 10000`, is the same
//! as `0.9999^20 * 10^dB < T^20 < 1.0001^20 * 10^dB`, and this is what the
//! module proves of every entry, in integers.
//!
//! The proof cuts the 20th roots of `10^0` to `10^19` off after five decimal
//! places.  For each root it checks by computation that the 20th power of
//! the cut-off root is too small and that of the next number too large, and
//! the entries are then compared with these bounds, times a whole power of
//! ten.

use crate::decibels::{table_magnitude, DB_VOLT_LOOKUP};
use vstd::arithmetic::power::{
    lemma_pow1,
    lemma_pow_adds,
    lemma_pow_distributes,
    lemma_pow_multiplies,
    lemma_pow_positive,
    pow,
};
use vstd::arithmetic::power2::{lemma2_to64, lemma_pow2, lemma_pow2_adds, pow2};
use vstd::prelude::*;

verus! {

/// Whether a magnitude of `m` units of `2^-149` differs from `10^(db/20)` by
/// less than one ten-thousandth of the latter.
///
/// With `T = m / 2^149` the claim is `0.9999^20 * 10^db < T^20 < 1.0001^20 *
/// 10^db`; both inequalities are multiplied by `10^80`, `10^100` and
/// `2^2980` to clear the denominators.
pub open spec fn within_a_ten_thousandth(m: nat, db: int) -> bool {
    let i = (db + 100) as nat;
    &&& pow(9999, 20) * pow(10, i) * pow2(2980) < pow(m as int, 20) * pow(10, 180)
    &&& pow(m as int, 20) * pow(10, 180) < pow(10001, 20) * pow(10, i) * pow2(2980)
}

/// The 20th power, by five multiplications.
pub open spec fn pow20(x: int) -> int {
    let x2 = x * x;
    let x4 = x2 * x2;
    let x5 = x4 * x;
    let x10 = x5 * x5;
    x10 * x10
}

proof fn lemma_pow20(x: int)
    ensures
        pow(x, 20) == pow20(x),
{
    lemma_pow1(x);
    lemma_pow_adds(x, 1, 1);
    lemma_pow_adds(x, 2, 2);
    lemma_pow_adds(x, 4, 1);
    lemma_pow_adds(x, 5, 5);
    lemma_pow_adds(x, 10, 10);
}

/// Powers grow with their base.
proof fn lemma_pow_base_increases(a: int, b: int, n: nat)
    requires
        0 <= a < b,
        n >= 1,
    ensures
        0 <= pow(a, n) < pow(b, n),
    decreases n,
{
    reveal(pow);
    if n == 1 {
        lemma_pow1(a);
        lemma_pow1(b);
    } else {
        lemma_pow_base_increases(a, b, (n - 1) as nat);
        let x = pow(a, (n - 1) as nat);
        let y = pow(b, (n - 1) as nat);
        assert(0 <= a * x < b * y) by (nonlinear_arith)
            requires
                0 <= a < b,
                0 <= x < y,
        ;
    }
}

/// The magnitude of the entry at index `i` in units of `2^-40`: the
/// significand, shifted by the exponent.
pub open spec fn table_scaled(i: int) -> int {
    let bits = DB_VOLT_LOOKUP[i] as int;
    let e = bits / 0x80_0000;
    let sig = 0x80_0000 + bits % 0x80_0000;
    if e == 110 {
        sig
    } else if e == 111 {
        2 * sig
    } else if e == 112 {
        4 * sig
    } else if e == 113 {
        8 * sig
    } else if e == 114 {
        16 * sig
    } else if e == 115 {
        32 * sig
    } else if e == 116 {
        64 * sig
    } else if e == 117 {
        128 * sig
    } else if e == 118 {
        256 * sig
    } else if e == 119 {
        512 * sig
    } else if e == 120 {
        1024 * sig
    } else if e == 121 {
        2048 * sig
    } else if e == 122 {
        4096 * sig
    } else if e == 123 {
        8192 * sig
    } else if e == 124 {
        16384 * sig
    } else if e == 125 {
        32768 * sig
    } else if e == 126 {
        65536 * sig
    } else if e == 127 {
        131072 * sig
    } else if e == 128 {
        262144 * sig
    } else if e == 129 {
        524288 * sig
    } else if e == 130 {
        1_048_576 * sig
    } else {
        2_097_152 * sig
    }
}

/// `x` doubled `k` times.
spec fn doubled(x: int, k: nat) -> int
    decreases k,
{
    if k == 0 {
        x
    } else {
        2 * doubled(x, (k - 1) as nat)
    }
}

proof fn lemma_doubled(x: int, k: nat)
    ensures
        doubled(x, k) == pow2(k) * x,
    decreases k,
{
    if k == 0 {
        lemma2_to64();
    } else {
        lemma_doubled(x, (k - 1) as nat);
        vstd::arithmetic::power2::lemma_pow2_unfold(k);
        assert(2 * (pow2((k - 1) as nat) * x) == (2 * pow2((k - 1) as nat)) * x)
            by (nonlinear_arith);
    }
}

proof fn lemma_table_scaled(i: int)
    requires
        0 <= i < 128,
    ensures
        table_magnitude(i) == table_scaled(i) * pow2(109),
        table_scaled(i) > 0,
{
    lemma2_to64();
    let bits = DB_VOLT_LOOKUP[i] as int;
    let e = bits / 0x80_0000;
    let sig = 0x80_0000 + bits % 0x80_0000;
    assert(110 <= e <= 131);
    let shift = (e - 110) as nat;
    lemma_pow2_adds(shift, 109);
    assert(table_scaled(i) == doubled(sig, shift)) by {
        reveal_with_fuel(doubled, 23);
    }
    lemma_doubled(sig, shift);
    assert(table_magnitude(i) == sig * pow2((e - 1) as nat));
    assert(sig * pow2((e - 1) as nat) == (pow2(shift) * sig) * pow2(109)) by (nonlinear_arith)
        requires
            pow2((e - 1) as nat) == pow2(shift) * pow2(109),
    ;
}

/// The whole powers of ten by which the decades of the table differ.
pub open spec fn ten_to(k: int) -> int {
    if k == 0 {
        1
    } else if k == 1 {
        10
    } else if k == 2 {
        100
    } else if k == 3 {
        1000
    } else if k == 4 {
        10000
    } else if k == 5 {
        100000
    } else {
        1000000
    }
}

proof fn lemma_small_powers_of_ten()
    ensures
        pow(10, 0) == 1,
        pow(10, 1) == 10,
        pow(10, 2) == 100,
        pow(10, 3) == 1000,
        pow(10, 4) == 10000,
        pow(10, 5) == 100000,
        pow(10, 6) == 1_000_000,
        pow(10, 7) == 10_000_000,
        pow(10, 8) == 100_000_000,
        pow(10, 9) == 1_000_000_000,
        pow(10, 10) == 10_000_000_000,
        pow(10, 11) == 100_000_000_000,
        pow(10, 12) == 1_000_000_000_000,
        pow(10, 13) == 10_000_000_000_000,
        pow(10, 14) == 100_000_000_000_000,
        pow(10, 15) == 1_000_000_000_000_000,
        pow(10, 16) == 10_000_000_000_000_000,
        pow(10, 17) == 100_000_000_000_000_000,
        pow(10, 18) == 1_000_000_000_000_000_000,
        pow(10, 19) == 10_000_000_000_000_000_000,
{
    reveal(pow);
    assert(pow(10, 0) == 1);
    assert(pow(10, 1) == 10 * pow(10, 0));
    assert(pow(10, 2) == 10 * pow(10, 1));
    assert(pow(10, 3) == 10 * pow(10, 2));
    assert(pow(10, 4) == 10 * pow(10, 3));
    assert(pow(10, 5) == 10 * pow(10, 4));
    assert(pow(10, 6) == 10 * pow(10, 5));
    assert(pow(10, 7) == 10 * pow(10, 6));
    assert(pow(10, 8) == 10 * pow(10, 7));
    assert(pow(10, 9) == 10 * pow(10, 8));
    assert(pow(10, 10) == 10 * pow(10, 9));
    assert(pow(10, 11) == 10 * pow(10, 10));
    assert(pow(10, 12) == 10 * pow(10, 11));
    assert(pow(10, 13) == 10 * pow(10, 12));
    assert(pow(10, 14) == 10 * pow(10, 13));
    assert(pow(10, 15) == 10 * pow(10, 14));
    assert(pow(10, 16) == 10 * pow(10, 15));
    assert(pow(10, 17) == 10 * pow(10, 16));
    assert(pow(10, 18) == 10 * pow(10, 17));
    assert(pow(10, 19) == 10 * pow(10, 18));
}

/// The entries at the indices `i` of one residue modulo 20.
///
/// `a / 10^5` and `b / 10^5` bound the 20th root of `10^(i % 20)`, and the
/// entry at `i` lies within a ten-thousandth of both bounds, times the power
/// of ten of its decade.
proof fn lemma_residue(i: int, a: int, b: int, tj: int)
    requires
        0 <= i < 128,
        0 < a < b,
        tj == pow(10, (i % 20) as nat),
        pow20(a) < pow20(100000) * tj,
        pow20(100000) * tj < pow20(b),
        9999 * b * 1_099_511_627_776 * ten_to(i / 20) < table_scaled(i) * 100_000_000_000_000,
        table_scaled(i) * 100_000_000_000_000 < 10001 * a * 1_099_511_627_776 * ten_to(i / 20),
    ensures
        within_a_ten_thousandth(table_magnitude(i), i - 100),
{
    let j = (i % 20) as nat;
    let k = (i / 20) as nat;
    let s = table_scaled(i);
    let c: int = 1_099_511_627_776;
    let e14: int = 100_000_000_000_000;
    let tk = ten_to(i / 20);
    lemma_table_scaled(i);
    lemma_small_powers_of_ten();
    lemma2_to64();
    // the powers of the constants
    assert(c == pow(2, 40)) by {
        vstd::arithmetic::power2::lemma2_to64_rest();
        lemma_pow2(40);
    }
    assert(tk == pow(10, k));
    assert(e14 == pow(10, 14));
    lemma_pow_multiplies(2, 40, 20);
    lemma_pow_multiplies(10, k, 20);
    lemma_pow_multiplies(10, 14, 20);
    lemma_pow_multiplies(10, 5, 20);
    let c20 = pow(2, 800);
    let tk20 = pow(10, 20 * k);
    let ten100 = pow(10, 100);
    let ten180 = pow(10, 180);
    let ten280 = pow(10, 280);
    assert(pow(c, 20) == c20);
    assert(pow(tk, 20) == tk20);
    assert(pow(e14, 20) == ten280);
    lemma_pow20(a);
    lemma_pow20(b);
    lemma_pow20(100000);
    assert(pow(100000, 20) == ten100);
    let a20 = pow(a, 20);
    let b20 = pow(b, 20);
    let s20 = pow(s, 20);
    let lo = pow(9999, 20);
    let hi = pow(10001, 20);
    let pi = pow(10, i as nat);
    // 10^100 * 10^j lies between the 20th powers of a and b
    assert(a20 < ten100 * tj < b20);
    // 10^i * 10^100 == (10^100 * 10^j) * 10^(20 k)
    lemma_pow_adds(10, j, 20 * k);
    assert(pi == tj * tk20);
    lemma_pow_adds(10, 180, 100);
    assert(ten280 == ten180 * ten100);
    lemma_pow_positive(10, 100);
    lemma_pow_positive(10, 20 * k);
    lemma_pow_positive(2, 800);
    lemma_pow_positive(9999, 20);
    lemma_pow_positive(10001, 20);
    // the 20th powers of the three products
    let x = 9999 * b * c * tk;
    let y = s * e14;
    let z = 10001 * a * c * tk;
    assert(0 < x) by (nonlinear_arith)
        requires
            x == 9999 * b * c * tk,
            b > 0,
            c > 0,
            tk > 0,
    ;
    lemma_pow_base_increases(x, y, 20);
    lemma_pow_base_increases(y, z, 20);
    lemma_pow_distributes(9999 * b * c, tk, 20);
    lemma_pow_distributes(9999 * b, c, 20);
    lemma_pow_distributes(9999, b, 20);
    lemma_pow_distributes(10001 * a * c, tk, 20);
    lemma_pow_distributes(10001 * a, c, 20);
    lemma_pow_distributes(10001, a, 20);
    lemma_pow_distributes(s, e14, 20);
    assert(pow(x, 20) == lo * b20 * c20 * tk20);
    assert(pow(z, 20) == hi * a20 * c20 * tk20);
    assert(pow(y, 20) == s20 * ten280);
    // cancel 10^100
    assert(lo * pi * c20 < s20 * ten180) by (nonlinear_arith)
        requires
            lo * b20 * c20 * tk20 < s20 * ten280,
            ten100 * tj < b20,
            pi == tj * tk20,
            ten280 == ten180 * ten100,
            ten100 > 0,
            lo > 0,
            c20 > 0,
            tk20 > 0,
    {
        assert((lo * c20 * tk20) * (ten100 * tj) < (lo * c20 * tk20) * b20);
        assert((lo * c20 * tk20) * (ten100 * tj) == (lo * pi * c20) * ten100);
        assert((lo * c20 * tk20) * b20 == lo * b20 * c20 * tk20);
        assert(s20 * ten280 == (s20 * ten180) * ten100);
        assert((lo * pi * c20) * ten100 < (s20 * ten180) * ten100);
    }
    assert(s20 * ten180 < hi * pi * c20) by (nonlinear_arith)
        requires
            s20 * ten280 < hi * a20 * c20 * tk20,
            a20 < ten100 * tj,
            pi == tj * tk20,
            ten280 == ten180 * ten100,
            ten100 > 0,
            hi > 0,
            c20 > 0,
            tk20 > 0,
    {
        assert((hi * c20 * tk20) * a20 < (hi * c20 * tk20) * (ten100 * tj));
        assert((hi * c20 * tk20) * (ten100 * tj) == (hi * pi * c20) * ten100);
        assert((hi * c20 * tk20) * a20 == hi * a20 * c20 * tk20);
        assert(s20 * ten280 == (s20 * ten180) * ten100);
        assert((s20 * ten180) * ten100 < (hi * pi * c20) * ten100);
    }
    // from units of 2^-40 to units of 2^-149
    let m = table_magnitude(i) as int;
    let w = pow2(109) as int;
    lemma_pow2(109);
    lemma_pow2(800);
    lemma_pow2(2980);
    lemma_pow_multiplies(2, 109, 20);
    lemma_pow_adds(2, 800, 2180);
    lemma_pow_distributes(s, w, 20);
    lemma_pow_positive(2, 2180);
    let w20 = pow(2, 2180);
    assert(pow(m, 20) == s20 * w20);
    assert(pow2(2980) == c20 * w20);
    assert(lo * pi * pow2(2980) < pow(m, 20) * ten180 && pow(m, 20) * ten180 < hi * pi * pow2(2980))
        by (nonlinear_arith)
        requires
            lo * pi * c20 < s20 * ten180,
            s20 * ten180 < hi * pi * c20,
            pow(m, 20) == s20 * w20,
            pow2(2980) == c20 * w20,
            w20 > 0,
    {
        assert((lo * pi * c20) * w20 < (s20 * ten180) * w20);
        assert((s20 * ten180) * w20 < (hi * pi * c20) * w20);
        assert((lo * pi * c20) * w20 == lo * pi * (c20 * w20));
        assert((hi * pi * c20) * w20 == hi * pi * (c20 * w20));
        assert((s20 * ten180) * w20 == (s20 * w20) * ten180);
    }
}

/// Every entry of the table differs from `10^(dB/20)` by less than one
/// ten-thousandth of that gain.
pub proof fn lemma_table_accurate(db: int)
    requires
        -100 <= db <= 27,
    ensures
        within_a_ten_thousandth(table_magnitude(db + 100), db),
{
    let i = db + 100;
    let j = i % 20;
    lemma_small_powers_of_ten();
    // the 20th roots of 10^0 to 10^19, cut off after five decimal places
    if j == 0 {
        assert(pow20(99999) < pow20(100000) * 1 && pow20(100000) * 1 < pow20(100001))
            by (nonlinear_arith);
        lemma_residue(i, 99999, 100001, 1);
    } else if j == 1 {
        assert(pow20(112201) < pow20(100000) * 10 && pow20(100000) * 10 < pow20(112202))
            by (nonlinear_arith);
        lemma_residue(i, 112201, 112202, 10);
    } else if j == 2 {
        assert(pow20(125892) < pow20(100000) * 100 && pow20(100000) * 100 < pow20(125893))
            by (nonlinear_arith);
        lemma_residue(i, 125892, 125893, 100);
    } else if j == 3 {
        assert(pow20(141253) < pow20(100000) * 1000 && pow20(100000) * 1000 < pow20(141254))
            by (nonlinear_arith);
        lemma_residue(i, 141253, 141254, 1000);
    } else if j == 4 {
        assert(pow20(158489) < pow20(100000) * 10000 && pow20(100000) * 10000 < pow20(158490))
            by (nonlinear_arith);
        lemma_residue(i, 158489, 158490, 10000);
    } else if j == 5 {
        assert(pow20(177827) < pow20(100000) * 100000 && pow20(100000) * 100000 < pow20(177828))
            by (nonlinear_arith);
        lemma_residue(i, 177827, 177828, 100000);
    } else if j == 6 {
        assert(pow20(199526) < pow20(100000) * 1_000_000 && pow20(100000) * 1_000_000 < pow20(199527))
            by (nonlinear_arith);
        lemma_residue(i, 199526, 199527, 1_000_000);
    } else if j == 7 {
        assert(pow20(223872) < pow20(100000) * 10_000_000 && pow20(100000) * 10_000_000 < pow20(223873))
            by (nonlinear_arith);
        lemma_residue(i, 223872, 223873, 10_000_000);
    } else if j == 8 {
        assert(pow20(251188) < pow20(100000) * 100_000_000 && pow20(100000) * 100_000_000 < pow20(251189))
            by (nonlinear_arith);
        lemma_residue(i, 251188, 251189, 100_000_000);
    } else if j == 9 {
        assert(pow20(281838) < pow20(100000) * 1_000_000_000 && pow20(100000) * 1_000_000_000 < pow20(281839))
            by (nonlinear_arith);
        lemma_residue(i, 281838, 281839, 1_000_000_000);
    } else if j == 10 {
        assert(pow20(316227) < pow20(100000) * 10_000_000_000 && pow20(100000) * 10_000_000_000 < pow20(316228))
            by (nonlinear_arith);
        lemma_residue(i, 316227, 316228, 10_000_000_000);
    } else if j == 11 {
        assert(pow20(354813) < pow20(100000) * 100_000_000_000 && pow20(100000) * 100_000_000_000 < pow20(354814))
            by (nonlinear_arith);
        lemma_residue(i, 354813, 354814, 100_000_000_000);
    } else if j == 12 {
        assert(pow20(398107) < pow20(100000) * 1_000_000_000_000 && pow20(100000) * 1_000_000_000_000 < pow20(398108))
            by (nonlinear_arith);
        lemma_residue(i, 398107, 398108, 1_000_000_000_000);
    } else if j == 13 {
        assert(pow20(446683) < pow20(100000) * 10_000_000_000_000 && pow20(100000) * 10_000_000_000_000 < pow20(446684))
            by (nonlinear_arith);
        lemma_residue(i, 446683, 446684, 10_000_000_000_000);
    } else if j == 14 {
        assert(pow20(501187) < pow20(100000) * 100_000_000_000_000 && pow20(100000) * 100_000_000_000_000 < pow20(501188))
            by (nonlinear_arith);
        lemma_residue(i, 501187, 501188, 100_000_000_000_000);
    } else if j == 15 {
        assert(pow20(562341) < pow20(100000) * 1_000_000_000_000_000 && pow20(100000) * 1_000_000_000_000_000 < pow20(562342))
            by (nonlinear_arith);
        lemma_residue(i, 562341, 562342, 1_000_000_000_000_000);
    } else if j == 16 {
        assert(pow20(630957) < pow20(100000) * 10_000_000_000_000_000 && pow20(100000) * 10_000_000_000_000_000 < pow20(630958))
            by (nonlinear_arith);
        lemma_residue(i, 630957, 630958, 10_000_000_000_000_000);
    } else if j == 17 {
        assert(pow20(707945) < pow20(100000) * 100_000_000_000_000_000 && pow20(100000) * 100_000_000_000_000_000 < pow20(707946))
            by (nonlinear_arith);
        lemma_residue(i, 707945, 707946, 100_000_000_000_000_000);
    } else if j == 18 {
        assert(pow20(794328) < pow20(100000) * 1_000_000_000_000_000_000 && pow20(100000) * 1_000_000_000_000_000_000 < pow20(794329))
            by (nonlinear_arith);
        lemma_residue(i, 794328, 794329, 1_000_000_000_000_000_000);
    } else {
        assert(pow20(891250) < pow20(100000) * 10_000_000_000_000_000_000 && pow20(100000) * 10_000_000_000_000_000_000 < pow20(891251))
            by (nonlinear_arith);
        lemma_residue(i, 891250, 891251, 10_000_000_000_000_000_000);
    }
}

} // verus!
