use audio_utils::decibels::{db_to_volt, volt_to_db, DbToVolt, VoltToDb};
use audio_utils::double::Double;
use audio_utils::single::Single;
use std::hint::black_box;

fn single(x: f32) -> Single {
    Single::from_bits(x.to_bits())
}

fn double(x: f64) -> Double {
    Double::from_bits(x.to_bits())
}

fn gain(x: Single) -> f32 {
    f32::from_bits(x.to_bits())
}

#[test]
fn db_to_volt_for_unity_gain_is_exact() {
    assert_eq!(gain(db_to_volt(0)), 1.0);
}

#[test]
fn db_to_volt_delivers_correct_values() {
    for db in -100..=27 {
        let expected = 10.0_f32.powf(db as f32 / 20.0);
        let actual = gain(db_to_volt(db));

        // verify that the values differ by at most 0.01%
        let ratio = expected / actual;
        assert!(ratio >= 0.9999 && ratio <= 1.0001);
    }
}

#[test]
fn db_to_volt_clamps_values() {
    assert_eq!(gain(db_to_volt(-101)), 1.0000000e-05);
    assert!(gain(db_to_volt(28)) > 20.0);
}

#[test]
fn volt_to_db_handles_nan_f32() {
    let nan_gain = single(f32::NAN);
    let result = nan_gain.to_db();
    assert_eq!(result, -100); // Should return minimum dB
}

#[test]
fn volt_to_db_handles_infinity_f32() {
    let inf_gain = single(f32::INFINITY);
    let result = inf_gain.to_db();
    assert_eq!(result, -100); // Should return minimum dB
}

#[test]
fn volt_to_db_handles_zero() {
    let zero_gain = single(0.0f32);
    let result = zero_gain.to_db();
    assert_eq!(result, -100); // Should clamp to the minimum
}

#[test]
fn volt_to_db_handles_negative_gains() {
    // Test that negative gains are treated the same as positive
    let positive = single(0.5f32);
    let negative = single(-0.5f32);
    assert_eq!(positive.to_db(), negative.to_db());

    // Test specific value
    assert_eq!(single(-1.0f32).to_db(), 0); // -1.0 has the same magnitude as 1.0 -> 0 dB
}

#[test]
fn volt_to_db_for_unity_gain_is_exact() {
    assert_eq!(volt_to_db(single(1.0)), 0);
}

#[test]
fn db_to_volt_and_volt_to_db_are_inverse_functions() {
    for given_db in -100..=27 {
        let actual_db = volt_to_db(db_to_volt(given_db));
        assert_eq!(actual_db, given_db);
    }
}

#[test]
fn volt_to_db_accepts_negative_values() {
    let a_gain = 0.12345f32;
    assert_eq!(volt_to_db(single(a_gain)), volt_to_db(single(-a_gain)));
}

#[test]
fn volt_to_db_clamps_small_values() {
    let a_gain = f32::MIN_POSITIVE;
    assert_eq!(volt_to_db(single(a_gain)), -100);
}

#[test]
fn volt_to_db_clamps_large_values() {
    let a_gain = f32::MAX;
    assert_eq!(volt_to_db(single(a_gain)), 27);
}

#[test]
fn volt_to_db_rounds_to_nearest_table_value() {
    let a_gain_above = 1.0001f32;
    assert_eq!(volt_to_db(single(a_gain_above)), 0);

    let a_gain_below = 0.9999f32;
    assert_eq!(volt_to_db(single(a_gain_below)), 0);
}

#[test]
fn integer_decibels_convert_through_the_trait() {
    assert_eq!(gain((-60i32).to_volt()), 1.0000000e-03f32);
    assert_eq!(gain((-60i64).to_volt()), 1.0000000e-03f32);
    assert_eq!(gain(1000i32.to_volt()), gain(27i32.to_volt()));
    assert_eq!(gain((-1000i32).to_volt()), gain((-100i32).to_volt()));
}

#[test]
fn wide_integer_decibels_saturate() {
    assert_eq!(gain(i64::MAX.to_volt()), gain(db_to_volt(27)));
    assert_eq!(gain(i64::MIN.to_volt()), gain(db_to_volt(-100)));
    assert_eq!(gain(((1i64 << 32) - 60).to_volt()), gain(db_to_volt(27)));
    assert_eq!(gain((-(1i64 << 32) + 5).to_volt()), gain(db_to_volt(-100)));
}

#[test]
fn gain_to_decibels_agrees_with_a_search_on_machine_numbers() {
    let table: Vec<f32> = (-100..=27).map(|db| gain(db_to_volt(db))).collect();
    let reference = |g: f32| -> i32 {
        if !g.is_finite() {
            return -100;
        }
        let g = g.abs();
        if g <= table[0] {
            return -100;
        }
        if g >= table[127] {
            return 27;
        }
        let low = table.iter().position(|&t| t >= g).unwrap();
        let idx = if (g - table[low - 1]).abs() < (g - table[low]).abs() { low - 1 } else { low };
        idx as i32 - 100
    };
    let mut state = 5u64;
    for i in 0..400_000u32 {
        state = state.wrapping_mul(6364136223846793005).wrapping_add(1442695040888963407);
        let mut bits = (state >> 32) as u32;
        if i % 2 == 0 {
            // inside the range of the table
            bits = (bits & 0x807F_FFFF) | ((110 + (state >> 20) as u32 % 22) << 23);
        }
        let g = f32::from_bits(bits);
        assert_eq!(volt_to_db(single(g)), reference(g), "{bits:#x}");
        assert_eq!(single(g).to_db(), reference(g), "{bits:#x}");
    }
}

#[test]
fn gains_halfway_between_entries_take_the_upper_entry() {
    for db in -100..27 {
        let lower = db_to_volt(db).to_bits();
        let upper = db_to_volt(db + 1).to_bits();
        let (lo, hi) = (f32::from_bits(lower) as f64, f32::from_bits(upper) as f64);
        let middle = (lo + hi) / 2.0;
        let m = middle as f32;
        if m as f64 == middle {
            assert_eq!(volt_to_db(single(m)), db + 1, "{db}");
        }
        // the neighbours of an entry belong to it
        assert_eq!(volt_to_db(Single::from_bits(upper - 1)), db + 1);
        assert_eq!(volt_to_db(Single::from_bits(lower + 1)), db);
    }
}

#[test]
fn every_entry_is_the_decimal_value_of_its_decibels() {
    let expected: [(i32, f32); 9] = [
        (-100, 1.0000000e-05),
        (-99, 1.1220185e-05),
        (-60, 1.0000000e-03),
        (-20, 1.0000000e-01),
        (-6, 5.0118723e-01),
        (0, 1.0000000e+00),
        (6, 1.9952623e+00),
        (20, 1.0000000e+01),
        (27, 2.2387211e+01),
    ];
    for (db, g) in expected {
        assert_eq!(gain(db_to_volt(db)), g);
    }
}

//--- Edge case tests for the conversion of decibels given as binary numbers
#[test]
fn db_to_volt_handles_nan_f32() {
    let nan_db = single(f32::NAN);
    let result = gain(nan_db.to_volt());
    assert_eq!(result, 1.0); // Should return unity gain
}

#[test]
fn db_to_volt_handles_infinity_f32() {
    let inf_db = single(f32::INFINITY);
    let neg_inf_db = single(f32::NEG_INFINITY);
    assert_eq!(gain(inf_db.to_volt()), 1.0); // Should return unity gain
    assert_eq!(gain(neg_inf_db.to_volt()), 1.0); // Should return unity gain
}

#[test]
fn db_to_volt_handles_nan_f64() {
    let nan_db = double(f64::NAN);
    let result = gain(nan_db.to_volt());
    assert_eq!(result, 1.0); // Should return unity gain
}

#[test]
fn db_to_volt_handles_infinity_f64() {
    let inf_db = double(f64::INFINITY);
    let neg_inf_db = double(f64::NEG_INFINITY);
    assert_eq!(gain(inf_db.to_volt()), 1.0); // Should return unity gain
    assert_eq!(gain(neg_inf_db.to_volt()), 1.0); // Should return unity gain
}

#[test]
fn volt_to_db_handles_nan_f64() {
    let nan_gain = double(f64::NAN);
    let result = nan_gain.to_db();
    assert_eq!(result, -100); // Should return minimum dB
}

#[test]
fn volt_to_db_handles_infinity_f64() {
    let inf_gain = double(f64::INFINITY);
    let result = inf_gain.to_db();
    assert_eq!(result, -100); // Should return minimum dB
}

#[test]
fn fractional_decibels_are_rounded_to_the_nearest_integer() {
    assert_eq!(gain(single(-59.8).to_volt()), 1.0000000e-03f32);
    assert_eq!(gain(double(-59.8).to_volt()), 1.0000000e-03f32);
    assert_eq!(gain(single(-60.5).to_volt()), gain(db_to_volt(-61)));
    assert_eq!(gain(single(-60.49).to_volt()), gain(db_to_volt(-60)));
    assert_eq!(gain(double(0.5).to_volt()), gain(db_to_volt(1)));
    assert_eq!(gain(double(0.49999999999999994).to_volt()), gain(db_to_volt(0)));
    assert_eq!(gain(double(-0.5).to_volt()), gain(db_to_volt(-1)));
    assert_eq!(gain(single(-0.0).to_volt()), 1.0);
    assert_eq!(gain(single(26.5).to_volt()), gain(db_to_volt(27)));
    assert_eq!(gain(single(1.0e30).to_volt()), gain(db_to_volt(27)));
    assert_eq!(gain(double(-1.0e300).to_volt()), gain(db_to_volt(-100)));
    assert_eq!(gain(double(127.5).to_volt()), gain(db_to_volt(27)));
    assert_eq!(gain(double(-128.0).to_volt()), gain(db_to_volt(-100)));
    assert_eq!(gain(single(f32::from_bits(1)).to_volt()), 1.0);
}

#[test]
fn binary_decibels_agree_with_rounding_on_the_machine() {
    let mut state = 6u64;
    for i in 0..300_000u32 {
        state = state.wrapping_mul(6364136223846793005).wrapping_add(1442695040888963407);
        let x32 = if i % 3 == 0 {
            f32::from_bits((state >> 32) as u32)
        } else {
            // halves, integers and their neighbours from -130 to 130
            let halves = ((state >> 40) % 521) as f32 / 2.0 - 130.0;
            f32::from_bits((halves.to_bits() as i64 + ((state >> 33) % 3) as i64 - 1) as u32)
        };
        if x32.is_finite() {
            let expected = db_to_volt(x32.clamp(-100.0, 27.0).round() as i32);
            assert_eq!(single(x32).to_volt().to_bits(), expected.to_bits(), "{x32:e}");
        } else {
            assert_eq!(gain(single(x32).to_volt()), 1.0);
        }
        let x64 = if i % 3 == 0 {
            f64::from_bits(state ^ (state << 17))
        } else {
            let halves = ((state >> 40) % 521) as f64 / 2.0 - 130.0;
            f64::from_bits((halves.to_bits() as i64 + ((state >> 33) % 3) as i64 - 1) as u64)
        };
        if x64.is_finite() {
            let expected = db_to_volt(x64.clamp(-100.0, 27.0).round() as i32);
            assert_eq!(double(x64).to_volt().to_bits(), expected.to_bits(), "{x64:e}");
        } else {
            assert_eq!(gain(double(x64).to_volt()), 1.0);
        }
    }
}

#[test]
fn wide_gains_convert_like_their_narrowed_values() {
    assert_eq!(double(0.001).to_db(), -60);
    assert_eq!(double(-0.001).to_db(), -60);
    assert_eq!(double(1.0).to_db(), 0);
    assert_eq!(double(0.0).to_db(), -100);
    assert_eq!(double(1.0e-300).to_db(), -100);
    assert_eq!(double(1.0e300).to_db(), 27);
    assert_eq!(double(-1.0e39).to_db(), 27);
    assert_eq!(double(f64::MAX).to_db(), 27);
    assert_eq!(double(f64::NEG_INFINITY).to_db(), -100);
    let mut state = 7u64;
    for _ in 0..200_000 {
        state = state.wrapping_mul(6364136223846793005).wrapping_add(1442695040888963407);
        let bits = (state & 0x800F_FFFF_FFFF_FFFF) | ((1023 - 20 + (state >> 30) % 28) << 52);
        let g = f64::from_bits(bits);
        assert_eq!(double(g).to_db(), volt_to_db(single(g as f32)), "{g:e}");
    }
}

#[test]
fn infinite_gain_passed_to_the_search_gives_the_minimum() {
    assert_eq!(volt_to_db(single(f32::INFINITY)), -100);
    assert_eq!(volt_to_db(single(f32::NEG_INFINITY)), -100);
    assert_eq!(volt_to_db(single(f32::NAN)), -100);
}

#[test]
fn db_to_volt_is_performant() {
    const SAMPLE_RATE: usize = 48_000;
    const TEST_DURATION_SECONDS: usize = 3600;
    const ITERS: usize = SAMPLE_RATE * TEST_DURATION_SECONDS;

    let start = std::time::Instant::now();
    for i in 0..ITERS {
        let db = ((i as i32) % 120) - 100;
        let out = db_to_volt(db);
        // Prevent dead code elimination
        black_box(out);
    }

    let elapsed = start.elapsed();
    let elapsed_micros = elapsed.as_micros();
    let simulated_micros = (TEST_DURATION_SECONDS * 1_000_000) as u128;
    let realtime_factor = simulated_micros as f64 / elapsed_micros as f64;

    println!(
        "Realtime factor: {:.0}x (could run ~{:.0} db_to_volt() in parallel)",
        realtime_factor, realtime_factor
    );
}

#[test]
fn a_gain_exactly_halfway_takes_the_upper_entry() {
    // halfway between the entries of -100 dB and -99 dB
    let lower = f32::from_bits(0x3727_C5AC) as f64;
    let upper = f32::from_bits(0x373C_3E54) as f64;
    let middle = f32::from_bits(0x3732_0200);
    assert_eq!(middle as f64, (lower + upper) / 2.0);
    assert_eq!(volt_to_db(single(middle)), -99);
    assert_eq!(volt_to_db(single(-middle)), -99);
    assert_eq!(volt_to_db(Single::from_bits(0x3732_01FF)), -100);
    assert_eq!(volt_to_db(Single::from_bits(0x3732_0201)), -99);
    assert_eq!(double(middle as f64).to_db(), -99);
}
