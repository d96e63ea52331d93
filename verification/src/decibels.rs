//! Conversion between decibels and linear gain through a lookup table.
//!
//! The table holds one binary32 gain for every integer decibel value from
//! -100 dB to +27 dB.  Converting decibels to gain is one clamped table
//! access.  Converting gain to decibels searches the same table for the entry
//! nearest to the magnitude of the gain, so that converting an integer decibel
//! value to gain and back yields that decibel value again.

use crate::double::Double;
use crate::pattern::{lemma_magnitude_increases, magnitude};
use crate::rounding::{nearest_integer, round_half_away};
use crate::single::Single;
use vstd::arithmetic::power2::{lemma2_to64, lemma_pow2_adds, lemma_pow2_pos, pow2};
use vstd::prelude::*;

verus! {

/// The gains `10^(dB/20)` for -100 dB to +27 dB in steps of 1 dB, as
/// binary32 bit patterns.  Entry `i` belongs to `i - 100` dB.
///
/// A step of 1 dB is below the just noticeable difference in loudness, so no
/// interpolation between entries is offered.
pub const DB_VOLT_LOOKUP: [u32; 128] = [
    // -100 dB to -91 dB
    0x3727_C5AC,
    0x373C_3E54,
    0x3753_366F,
    0x376C_FC07,
    0x3784_F353,
    0x3795_2C42,
    0x37A7_5FEE,
    0x37BB_CC2B,
    0x37D2_B65A,
    0x37EC_6C50,
    // -90 dB to -81 dB
    0x3804_A2B3,
    0x3814_D1CC,
    0x3826_FA6F,
    0x383B_5A49,
    0x3852_3692,
    0x386B_DCF1,
    0x3884_5244,
    0x3894_778D,
    0x38A6_952C,
    0x38BA_E8AC,
    // -80 dB to -71 dB
    0x38D1_B717,
    0x38EB_4DE9,
    0x3904_0205,
    0x3914_1D84,
    0x3926_3027,
    0x393A_7753,
    0x3951_37EA,
    0x396A_BF36,
    0x3983_B1F8,
    0x3993_C3B2,
    // -70 dB to -61 dB
    0x39A5_CB5F,
    0x39BA_063F,
    0x39D0_B90A,
    0x39EA_30DB,
    0x3A03_621B,
    0x3A13_6A16,
    0x3A25_66D5,
    0x3A39_9570,
    0x3A50_3A77,
    0x3A69_A2D7,
    // -60 dB to -51 dB
    0x3A83_126F,
    0x3A93_10B2,
    0x3AA5_0287,
    0x3AB9_24E6,
    0x3ACF_BC31,
    0x3AE9_1528,
    0x3B02_C2F2,
    0x3B12_B782,
    0x3B24_9E76,
    0x3B38_B49E,
    // -50 dB to -41 dB
    0x3B4F_3E37,
    0x3B68_87CF,
    0x3B82_73A6,
    0x3B92_5E89,
    0x3BA4_3AA2,
    0x3BB8_449C,
    0x3BCE_C08A,
    0x3BE7_FACC,
    0x3C02_248A,
    0x3C12_05C6,
    // -40 dB to -31 dB
    0x3C23_D70A,
    0x3C37_D4DE,
    0x3C4E_4329,
    0x3C67_6E1F,
    0x3C81_D59F,
    0x3C91_AD39,
    0x3CA3_73AF,
    0x3CB7_6562,
    0x3CCD_C613,
    0x3CE6_E1C6,
    // -30 dB to -21 dB
    0x3D01_86E3,
    0x3D11_54E1,
    0x3D23_1090,
    0x3D36_F62B,
    0x3D4D_494A,
    0x3D66_55C3,
    0x3D81_3856,
    0x3D90_FCBF,
    0x3DA2_ADAD,
    0x3DB6_8738,
    // -20 dB to -11 dB
    0x3DCC_CCCD,
    0x3DE5_CA15,
    0x3E00_E9F9,
    0x3E10_A4D3,
    0x3E22_4B06,
    0x3E36_1887,
    0x3E4C_509B,
    0x3E65_3EBB,
    0x3E80_9BCC,
    0x3E90_4D1C,
    // -10 dB to -1 dB
    0x3EA1_E89B,
    0x3EB5_AA1A,
    0x3ECB_D4B4,
    0x3EE4_B3B6,
    0x3F00_4DCE,
    0x3F0F_F59A,
    0x3F21_866C,
    0x3F35_3BEF,
    0x3F4B_5918,
    0x3F64_2906,
    // 0 dB to +9 dB
    0x3F80_0000,
    0x3F8F_9E4D,
    0x3FA1_2478,
    0x3FB4_CE08,
    0x3FCA_DDC8,
    0x3FE3_9EA9,
    0x3FFF_64C1,
    0x400F_4735,
    0x4020_C2BF,
    0x4034_6063,
    // +10 dB to +19 dB
    0x404A_62C2,
    0x4063_14A0,
    0x407E_C9E1,
    0x408E_F052,
    0x40A0_6142,
    0x40B3_F300,
    0x40C9_E806,
    0x40E2_8AEB,
    0x40FE_2F5E,
    0x410E_99A3,
    // +20 dB to +27 dB
    0x4120_0000,
    0x4133_85E1,
    0x4149_6D96,
    0x4162_018A,
    0x417D_953A,
    0x418E_432A,
    0x419F_9EF9,
    0x41B3_1902,
];

/// Offset that turns a decibel value into a table index.
pub const DB_VOLT_LOOKUP_OFFSET: usize = 100;

/// Number of table entries.
pub const DB_VOLT_LOOKUP_SIZE: usize = 128;

/// Smallest decibel value of the table.
pub const DB_VOLT_LOOKUP_MIN: i32 = -100;

/// Largest decibel value of the table.
pub const DB_VOLT_LOOKUP_MAX: i32 = 27;

/// The gain that the table holds at index `i`.
pub open spec fn table_entry(i: int) -> Single
    recommends
        0 <= i < 128,
{
    Single { bits: DB_VOLT_LOOKUP[i] }
}

/// The magnitude of the gain at index `i`, in units of `2^-149`.
pub open spec fn table_magnitude(i: int) -> nat
    recommends
        0 <= i < 128,
{
    table_entry(i).magnitude()
}

/// A decibel value clamped to the range of the table.
pub open spec fn clamp_db(db: int) -> int {
    if db < -100 {
        -100
    } else if db > 27 {
        27
    } else {
        db
    }
}

/// The gain for a decibel value: the table entry of the clamped value.
pub open spec fn db_to_volt_spec(db: int) -> Single {
    table_entry(clamp_db(db) + 100)
}

/// Whether a gain is finite, positive and neither below the first nor above
/// the last entry of the table, that is between `0.00001` and about `22.4`.
pub open spec fn in_table_range(gain: Single) -> bool {
    &&& gain.finite()
    &&& !gain.negative()
    &&& table_magnitude(0) <= gain.magnitude() <= table_magnitude(127)
}

/// The lowest index at or after `from` whose entry is not below magnitude
/// `a`; the last index if there is none.
pub open spec fn first_not_below(a: nat, from: int) -> int
    decreases 127 - from,
{
    if from >= 127 || table_magnitude(from) >= a {
        from
    } else {
        first_not_below(a, from + 1)
    }
}

/// The decibel value for a gain.
///
/// A gain that is not finite, or whose magnitude is at most the first entry,
/// gives -100 dB; a magnitude at or above the last entry gives +27 dB.  In
/// between, the magnitude lies above the entry at `k - 1` and not above the
/// entry at `k`, and the nearer of the two decides; at equal distance the
/// upper one does.
pub open spec fn volt_to_db_spec(gain: Single) -> int {
    let a = gain.magnitude();
    if !gain.finite() || a <= table_magnitude(0) {
        -100
    } else if a >= table_magnitude(127) {
        27
    } else {
        let k = first_not_below(a, 0);
        if a - table_magnitude(k - 1) < table_magnitude(k) - a {
            k - 1 - 100
        } else {
            k - 100
        }
    }
}

/// Neighbouring entries increase.
proof fn lemma_table_adjacent(i: int)
    requires
        0 <= i < 127,
    ensures
        DB_VOLT_LOOKUP[i] < DB_VOLT_LOOKUP[i + 1],
{
}

/// Every entry is a positive normal number between `2^-17` and `2^5`.
proof fn lemma_table_range(i: int)
    requires
        0 <= i < 128,
    ensures
        0x3700_0000 <= DB_VOLT_LOOKUP[i] < 0x4200_0000,
        table_entry(i).finite(),
        !table_entry(i).negative(),
        table_entry(i).pattern() == DB_VOLT_LOOKUP[i],
{
}

/// The table is strictly increasing, as bit patterns and as magnitudes.
pub proof fn lemma_table_increases(i: int, j: int)
    requires
        0 <= i < j < 128,
    ensures
        DB_VOLT_LOOKUP[i] < DB_VOLT_LOOKUP[j],
        table_magnitude(i) < table_magnitude(j),
    decreases j - i,
{
    lemma_table_adjacent(j - 1);
    if i < j - 1 {
        lemma_table_increases(i, j - 1);
    }
    lemma_table_range(i);
    lemma_table_range(j);
    lemma_magnitude_increases(23, DB_VOLT_LOOKUP[i] as nat, DB_VOLT_LOOKUP[j] as nat);
}

/// Where the entries from `from` up to `k` are below `a` and the entry at `k`
/// is not, the search from `from` ends at `k`.
proof fn lemma_first_not_below(a: nat, from: int, k: int)
    requires
        0 <= from <= k <= 127,
        forall|j: int| from <= j < k ==> table_magnitude(j) < a,
        k == 127 || table_magnitude(k) >= a,
    ensures
        first_not_below(a, from) == k,
    decreases k - from,
{
    if from < k {
        lemma_first_not_below(a, from + 1, k);
    }
}

/// The decibel value looked up in the table.
///
/// Values below -100 dB give the entry of -100 dB, values above +27 dB the
/// entry of +27 dB.
pub fn db_to_volt(db: i32) -> (gain: Single)
    ensures
        gain == db_to_volt_spec(db as int),
        in_table_range(gain),
{
    proof {
        lemma_db_to_volt_range(db as int);
    }
    let clamped: i32 = if db < DB_VOLT_LOOKUP_MIN {
        DB_VOLT_LOOKUP_MIN
    } else if db > DB_VOLT_LOOKUP_MAX {
        DB_VOLT_LOOKUP_MAX
    } else {
        db
    };
    let idx: usize = (clamped + DB_VOLT_LOOKUP_OFFSET as i32) as usize;
    Single::from_bits(DB_VOLT_LOOKUP[idx])
}

/// The magnitude of a pattern within the range of the table, in units of
/// `2^-40`.
fn table_scaled(pattern: u32) -> (r: u64)
    requires
        0x3700_0000 <= pattern < 0x4200_0000,
    ensures
        r * pow2(109) == magnitude(23, pattern as nat),
{
    let e: u32 = pattern / 0x80_0000;
    let f: u32 = pattern % 0x80_0000;
    let sig: u64 = (0x80_0000 + f) as u64;
    let shift: u64 = (e - 110) as u64;
    proof {
        lemma2_to64();
        assert(pow2(23) == 0x80_0000);
        assert(110 <= e <= 131);
        assert(pow2(shift as nat) <= pow2(21)) by {
            if shift < 21 {
                vstd::arithmetic::power2::lemma_pow2_strictly_increases(shift as nat, 21);
            }
        }
        assert(sig * pow2(shift as nat) <= 0x100_0000 * 0x20_0000) by (nonlinear_arith)
            requires
                sig < 0x100_0000,
                pow2(shift as nat) <= 0x20_0000,
        ;
        vstd::bits::lemma_u64_shl_is_mul(sig, shift);
        lemma_pow2_adds(shift as nat, 109);
        assert((e - 1) as nat == shift as nat + 109);
        assert(sig * pow2(shift as nat) * pow2(109) == sig * pow2((e - 1) as nat))
            by (nonlinear_arith)
            requires
                pow2((e - 1) as nat) == pow2(shift as nat) * pow2(109),
        ;
    }
    sig << shift
}

/// The decibel value whose table entry is nearest to the magnitude of
/// `gain_volt`.
///
/// The sign of the gain is irrelevant.  Magnitudes at or below the first
/// entry give -100 dB, magnitudes at or above the last entry +27 dB, and so
/// does every gain that is not finite give -100 dB.
pub fn volt_to_db(gain_volt: Single) -> (db: i32)
    ensures
        db == volt_to_db_spec(gain_volt),
        -100 <= db <= 27,
{
    if !gain_volt.is_finite() {
        return DB_VOLT_LOOKUP_MIN;
    }
    let g: u32 = gain_volt.abs().to_bits();
    let ghost a = gain_volt.magnitude();
    proof {
        lemma_table_range(0);
        lemma_table_range(127);
        if g < DB_VOLT_LOOKUP[0] {
            lemma_magnitude_increases(23, g as nat, DB_VOLT_LOOKUP[0] as nat);
        }
        if g > DB_VOLT_LOOKUP[0] {
            lemma_magnitude_increases(23, DB_VOLT_LOOKUP[0] as nat, g as nat);
        }
        if g < DB_VOLT_LOOKUP[127] {
            lemma_magnitude_increases(23, g as nat, DB_VOLT_LOOKUP[127] as nat);
        }
        if g > DB_VOLT_LOOKUP[127] {
            lemma_magnitude_increases(23, DB_VOLT_LOOKUP[127] as nat, g as nat);
        }
    }
    // shortcut (and clamping) for small values
    if g <= DB_VOLT_LOOKUP[0] {
        return DB_VOLT_LOOKUP_MIN;
    }
    // shortcut (and clamping) for large values
    if g >= DB_VOLT_LOOKUP[DB_VOLT_LOOKUP_SIZE - 1] {
        return DB_VOLT_LOOKUP_MAX;
    }
    let mut low: usize = 0;
    let mut high: usize = DB_VOLT_LOOKUP_SIZE - 1;
    while low < high
        invariant
            low <= high <= 127,
            forall|j: int| 0 <= j < low ==> DB_VOLT_LOOKUP[j] < g,
            DB_VOLT_LOOKUP[high as int] >= g,
        decreases high - low,
    {
        let mid: usize = (low + high) / 2;
        if DB_VOLT_LOOKUP[mid] < g {
            proof {
                assert forall|j: int| 0 <= j < mid + 1 implies DB_VOLT_LOOKUP[j] < g by {
                    if j < mid {
                        lemma_table_increases(j, mid as int);
                    }
                }
            }
            low = mid + 1;
        } else {
            high = mid;
        }
    }
    assert(low >= 1);
    proof {
        assert forall|j: int| 0 <= j < low implies table_magnitude(j) < a by {
            lemma_table_range(j);
            lemma_magnitude_increases(23, DB_VOLT_LOOKUP[j] as nat, g as nat);
        }
        lemma_table_range(low as int);
        if g < DB_VOLT_LOOKUP[low as int] {
            lemma_magnitude_increases(23, g as nat, DB_VOLT_LOOKUP[low as int] as nat);
        }
        lemma_first_not_below(a, 0, low as int);
        lemma_table_range(low - 1);
        lemma_table_increases(0, 127);
    }
    // pick the closer of the entries at low and low - 1
    let upper: u64 = table_scaled(DB_VOLT_LOOKUP[low]);
    let lower: u64 = table_scaled(DB_VOLT_LOOKUP[low - 1]);
    let x: u64 = table_scaled(g);
    proof {
        let c = pow2(109);
        lemma_pow2_pos(109);
        assert(lower * c == table_magnitude(low - 1));
        assert(upper * c == table_magnitude(low as int));
        assert(x * c == a);
        assert(lower < x <= upper) by (nonlinear_arith)
            requires
                lower * c < x * c,
                x * c <= upper * c,
                c > 0,
        ;
        assert((x - lower < upper - x) <==> (x * c - lower * c < upper * c - x * c))
            by (nonlinear_arith)
            requires
                c > 0,
        ;
    }
    let idx: usize = if x - lower < upper - x {
        low - 1
    } else {
        low
    };
    (idx as i32) + DB_VOLT_LOOKUP_MIN
}

/// Conversion of a decibel value to the linear gain of the table.
pub trait DbToVolt: Sized {
    /// The gain that [`DbToVolt::to_volt`] returns.
    spec fn to_volt_spec(self) -> Single;

    /// The linear gain for this decibel value.
    fn to_volt(self) -> (gain: Single)
        ensures
            gain == self.to_volt_spec(),
            in_table_range(gain),
    ;
}

/// Conversion of a linear gain to the decibel value of the nearest table
/// entry.
pub trait VoltToDb: Sized {
    /// The decibel value that [`VoltToDb::to_db`] returns.
    spec fn to_db_spec(self) -> int;

    /// The decibel value for this gain.
    fn to_db(self) -> (db: i32)
        ensures
            db == self.to_db_spec(),
            -100 <= db <= 27,
    ;
}

impl DbToVolt for i32 {
    open spec fn to_volt_spec(self) -> Single {
        db_to_volt_spec(self as int)
    }

    fn to_volt(self) -> (gain: Single) {
        db_to_volt(self)
    }
}

impl DbToVolt for i64 {
    open spec fn to_volt_spec(self) -> Single {
        db_to_volt_spec(self as int)
    }

    /// Values outside the range of `i32` saturate like all values outside
    /// the table.
    fn to_volt(self) -> (gain: Single) {
        if self < -100 {
            db_to_volt(DB_VOLT_LOOKUP_MIN)
        } else if self > 27 {
            db_to_volt(DB_VOLT_LOOKUP_MAX)
        } else {
            db_to_volt(self as i32)
        }
    }
}

/// A decibel value given as a number with a sign and a magnitude of `mag`
/// units of which `one` make up 1 dB, rounded to the nearest integer, halfway
/// cases away from zero.
pub open spec fn rounded_db(negative: bool, mag: nat, one: nat) -> int {
    if negative {
        -(nearest_integer(mag, one) as int)
    } else {
        nearest_integer(mag, one) as int
    }
}

impl DbToVolt for Single {
    /// Finite decibel values are rounded to the nearest integer; there is no
    /// interpolation.  Values that are not finite give unity gain.
    open spec fn to_volt_spec(self) -> Single {
        if self.finite() {
            db_to_volt_spec(rounded_db(self.negative(), self.magnitude(), pow2(149)))
        } else {
            Single { bits: 0x3F80_0000 }
        }
    }

    fn to_volt(self) -> (gain: Single) {
        if !self.is_finite() {
            proof {
                lemma_db_to_volt_range(0);
            }
            return Single::from_bits(0x3F80_0000);  // unity gain as safe default
        }
        let n: u64 = round_half_away(23, 127, self.abs().to_bits() as u64);
        if self.is_sign_negative() {
            db_to_volt(-(n as i32))
        } else {
            db_to_volt(n as i32)
        }
    }
}

impl DbToVolt for Double {
    /// Finite decibel values are rounded to the nearest integer; there is no
    /// interpolation.  Values that are not finite give unity gain.
    open spec fn to_volt_spec(self) -> Single {
        if self.finite() {
            db_to_volt_spec(rounded_db(self.negative(), self.magnitude(), pow2(1074)))
        } else {
            Single { bits: 0x3F80_0000 }
        }
    }

    fn to_volt(self) -> (gain: Single) {
        if !self.is_finite() {
            proof {
                lemma_db_to_volt_range(0);
            }
            return Single::from_bits(0x3F80_0000);  // unity gain as safe default
        }
        let n: u64 = round_half_away(52, 1023, self.abs().to_bits());
        if self.is_sign_negative() {
            db_to_volt(-(n as i32))
        } else {
            db_to_volt(n as i32)
        }
    }
}

impl VoltToDb for Double {
    /// The gain is rounded to binary32 first.  A finite gain beyond the range
    /// of binary32 lies above the table.
    open spec fn to_db_spec(self) -> int {
        if !self.finite() {
            -100
        } else if self.to_single_spec().infinite() {
            27
        } else {
            volt_to_db_spec(self.to_single_spec())
        }
    }

    fn to_db(self) -> (db: i32) {
        if !self.is_finite() {
            return -100;  // minimum as safe default
        }
        let gain = self.to_single();
        if !gain.is_finite() {
            proof {
                lemma_to_single_not_nan(self);
            }
            return DB_VOLT_LOOKUP_MAX;
        }
        volt_to_db(gain)
    }
}

/// Rounding a binary64 value that is not a NaN to binary32 gives no NaN.
proof fn lemma_to_single_not_nan(x: Double)
    requires
        !x.nan(),
    ensures
        !x.to_single_spec().nan(),
{
    lemma2_to64();
    assert(pow2(23) == 0x80_0000);
    assert(crate::rounding::infinity_pattern(23, 255) == 0x7F80_0000);
}

impl VoltToDb for Single {
    open spec fn to_db_spec(self) -> int {
        volt_to_db_spec(self)
    }

    fn to_db(self) -> (db: i32) {
        if !self.is_finite() {
            return -100;  // minimum as safe default
        }
        volt_to_db(self)
    }
}

/// Converting a decibel value of the table to gain and back gives the same
/// decibel value.
pub proof fn lemma_round_trip(db: int)
    requires
        -100 <= db <= 27,
    ensures
        volt_to_db_spec(db_to_volt_spec(db)) == db,
{
    let i = db + 100;
    let a = table_magnitude(i);
    lemma_table_range(i);
    if 0 < i {
        lemma_table_increases(0, i);
    }
    if i < 127 {
        lemma_table_increases(i, 127);
    }
    if 0 < i < 127 {
        assert forall|j: int| 0 <= j < i implies table_magnitude(j) < a by {
            lemma_table_increases(j, i);
        }
        lemma_first_not_below(a, 0, i);
        lemma_table_increases(i - 1, i);
    }
}

/// Every gain that the table gives is finite, positive and within the range
/// of the table.
pub proof fn lemma_db_to_volt_range(db: int)
    ensures
        in_table_range(db_to_volt_spec(db)),
{
    let i = clamp_db(db) + 100;
    lemma_table_range(i);
    if 0 < i {
        lemma_table_increases(0, i);
    }
    if i < 127 {
        lemma_table_increases(i, 127);
    }
}

/// Decibel values and gains that are not finite convert to the safe
/// defaults: unity gain and -100 dB.
pub proof fn lemma_not_finite_defaults(narrow: Single, wide: Double)
    requires
        !narrow.finite(),
        !wide.finite(),
    ensures
        narrow.to_volt_spec() == db_to_volt_spec(0),
        wide.to_volt_spec() == db_to_volt_spec(0),
        narrow.to_db_spec() == -100,
        wide.to_db_spec() == -100,
        volt_to_db_spec(narrow) == -100,
{
}

/// Unity gain and 0 dB correspond exactly.
pub proof fn lemma_unity()
    ensures
        db_to_volt_spec(0).bits == 0x3F80_0000,
        volt_to_db_spec(Single { bits: 0x3F80_0000 }) == 0,
{
    lemma_round_trip(0);
}

/// Decibel values outside the table give the gain of the nearest end of the
/// table.
pub proof fn lemma_db_to_volt_saturates(db: int)
    ensures
        db <= -100 ==> db_to_volt_spec(db) == db_to_volt_spec(-100),
        db >= 27 ==> db_to_volt_spec(db) == db_to_volt_spec(27),
{
}

/// Gains of equal magnitude give the same decibel value, whatever their
/// signs.
pub proof fn lemma_volt_to_db_ignores_sign(gain: Single, other: Single)
    requires
        gain.pattern() == other.pattern(),
    ensures
        volt_to_db_spec(gain) == volt_to_db_spec(other),
{
}

/// Finite gains at or below the first entry give -100 dB, those at or above
/// the last entry +27 dB.
pub proof fn lemma_volt_to_db_saturates(gain: Single)
    requires
        gain.finite(),
    ensures
        gain.magnitude() <= table_magnitude(0) ==> volt_to_db_spec(gain) == -100,
        gain.magnitude() >= table_magnitude(127) ==> volt_to_db_spec(gain) == 27,
{
    lemma_table_increases(0, 127);
}

/// The search of [`first_not_below`] ends at an index in range, has passed
/// only entries below `a`, and stops before the last index only at an entry
/// that is not below `a`.
proof fn lemma_first_not_below_bracket(a: nat, from: int)
    requires
        0 <= from <= 127,
    ensures
        from <= first_not_below(a, from) <= 127,
        forall|j: int| from <= j < first_not_below(a, from) ==> table_magnitude(j) < a,
        first_not_below(a, from) < 127 ==> table_magnitude(first_not_below(a, from)) >= a,
    decreases 127 - from,
{
    if !(from >= 127 || table_magnitude(from) >= a) {
        lemma_first_not_below_bracket(a, from + 1);
    }
}

/// The distance between a magnitude and the entry at index `i`.
pub open spec fn table_distance(a: nat, i: int) -> nat {
    if a >= table_magnitude(i) {
        (a - table_magnitude(i)) as nat
    } else {
        (table_magnitude(i) - a) as nat
    }
}

/// The decibel value of a finite gain lies in the range of the table, and no
/// table entry is nearer to the magnitude of the gain than the entry of that
/// decibel value; entries above it are strictly farther.
pub proof fn lemma_volt_to_db_nearest(gain: Single, j: int)
    requires
        gain.finite(),
        0 <= j < 128,
    ensures
        -100 <= volt_to_db_spec(gain) <= 27,
        table_distance(gain.magnitude(), volt_to_db_spec(gain) + 100) <= table_distance(
            gain.magnitude(),
            j,
        ),
        j > volt_to_db_spec(gain) + 100 ==> table_distance(
            gain.magnitude(),
            volt_to_db_spec(gain) + 100,
        ) < table_distance(gain.magnitude(), j),
{
    let a = gain.magnitude();
    let r = volt_to_db_spec(gain) + 100;
    lemma_table_increases(0, 127);
    if a <= table_magnitude(0) {
        if j > 0 {
            lemma_table_increases(0, j);
        }
    } else if a >= table_magnitude(127) {
        if j < 127 {
            lemma_table_increases(j, 127);
        }
    } else {
        lemma_first_not_below_bracket(a, 0);
        let k = first_not_below(a, 0);
        assert(k >= 1);
        assert(table_magnitude(k) >= a);
        assert(table_magnitude(k - 1) < a);
        if j < k - 1 {
            lemma_table_increases(j, k - 1);
        }
        if j > k {
            lemma_table_increases(k, j);
        }
    }
}

} // verus!
