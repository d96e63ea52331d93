use audio_utils::double::Double;
use audio_utils::single::Single;
use audio_utils::tiny_smoother::{SmootherError, TinySmoother};

fn make(beta: f64, start_value: f32) -> Result<TinySmoother, SmootherError> {
    TinySmoother::new(Double::from_bits(beta.to_bits()), Single::from_bits(start_value.to_bits()))
}

fn smoother(beta: f64, start_value: f32) -> TinySmoother {
    make(beta, start_value).unwrap()
}

fn next(smoother: &mut TinySmoother, target: f32) -> f32 {
    f32::from_bits(smoother.next(Single::from_bits(target.to_bits())).to_bits())
}

/// The same filter on the numbers of the machine.
struct MachineSmoother {
    last_value: f64,
    start_value: f32,
    beta: f64,
}

impl MachineSmoother {
    fn new(beta: f64, start_value: f32) -> MachineSmoother {
        MachineSmoother { last_value: start_value as f64, start_value, beta }
    }

    fn next(&mut self, target: f32) -> f32 {
        if !target.is_finite() {
            return self.last_value as f32;
        }
        let target = target as f64;
        let new_value = target - self.beta * (target - self.last_value);
        self.last_value = new_value;
        new_value as f32
    }

    fn reset(&mut self) {
        self.last_value = self.start_value as f64;
    }
}

fn mix(state: &mut u64) -> u64 {
    *state = state.wrapping_mul(6364136223846793005).wrapping_add(1442695040888963407);
    let mut z = *state;
    z ^= z >> 32;
    z = z.wrapping_mul(0xd6e8feb86659fd93);
    z ^= z >> 32;
    z
}

// smoother -------------
#[test]
fn smoother_reaches_half_target_within_500_samples() {
    let mut tiny_smoother = TinySmoother::default();
    // start at 0.0
    let start = next(&mut tiny_smoother, 0.0);
    assert_eq!(start, 0.0);

    // target 1.0 for 500 samples
    let target = 1.0f32;
    for _ in 0..500 {
        let _value = next(&mut tiny_smoother, target);
    }

    // now the value should be close to 0.5
    let value = next(&mut tiny_smoother, target);
    assert!(value > 0.499 && value < 0.501);
    println!("value = {value}.")
}

#[test]
fn smoother_does_not_drift_when_target_is_reached() {
    let mut tiny_smoother = TinySmoother::default();
    const TARGET: f32 = 1.0;
    const SAMPLE_RATE: usize = 48_000;
    const TEST_DURATION_MINUTES: usize = 15;

    // wait until 99% of the target is reached.
    let mut value = 0.0;
    let samples_to_target_count = (0..)
        .map(|_| next(&mut tiny_smoother, TARGET))
        .position(|value| value >= 0.99)
        .unwrap();

    println!(
        "Target reached after {} samples ({:.1} ms at 48kHz)",
        samples_to_target_count,
        samples_to_target_count as f64 * 1000.0 / SAMPLE_RATE as f64
    );

    // Start time measurement.
    let start = std::time::Instant::now();

    // let it run for fifteen minutes and check every second for drift.
    let mut max_drift = 0.0f32;
    for second in 0..TEST_DURATION_MINUTES * 60 {
        for _ in 0..SAMPLE_RATE {
            value = next(&mut tiny_smoother, TARGET);
        }

        // Drift-Check
        let drift = (value - TARGET).abs();
        max_drift = max_drift.max(drift);
        assert!(
            drift < 0.01,
            "Drift detected after {} seconds: value={:.17}, drift={:e}",
            second + 1,
            value,
            drift
        );
    }

    // End time measurement.
    let elapsed = start.elapsed();
    let elapsed_micros = elapsed.as_micros();
    let simulated_micros = (TEST_DURATION_MINUTES * 60 * 1_000_000) as u128;
    let realtime_factor = simulated_micros as f64 / elapsed_micros as f64;

    println!("Final value after {} minutes: {:.17}", TEST_DURATION_MINUTES, value);
    println!("Maximum drift from target: {:e}", max_drift);
    println!(
        "Performance: {} minutes audio processed in {:.3} ms",
        TEST_DURATION_MINUTES,
        elapsed.as_secs_f64() * 1000.0
    );
    println!(
        "Realtime factor: {:.0}x (could run ~{:.0} smoother in parallel)",
        realtime_factor, realtime_factor
    );
}

#[test]
fn smoother_can_be_reset() {
    let mut smoother = TinySmoother::default();
    // let it run for 500 samples
    for _ in 0..500 {
        next(&mut smoother, 1.0);
    }
    // now the value should be close to 0.5
    assert!(next(&mut smoother, 1.0) > 0.499);

    smoother.reset();
    // after reset, the value should be close to 0.0
    assert!(next(&mut smoother, 1.0) < 0.01);
}

//--- Edge case tests
#[test]
fn smoother_handles_beta_zero() {
    let mut smoother = smoother(0.0, 0.0);
    // Beta = 0 should mean instant response (no smoothing)
    assert_eq!(next(&mut smoother, 1.0), 1.0);
    assert_eq!(next(&mut smoother, 0.5), 0.5);
    assert_eq!(next(&mut smoother, -1.0), -1.0);
}

#[test]
fn smoother_rejects_beta_one() {
    assert_eq!(make(1.0, 0.0).err(), Some(SmootherError::BetaOutOfRange));
}

#[test]
fn smoother_rejects_beta_greater_than_one() {
    assert_eq!(make(1.5, 0.0).err(), Some(SmootherError::BetaOutOfRange));
    assert_eq!(make(f64::INFINITY, 0.0).err(), Some(SmootherError::BetaOutOfRange));
}

#[test]
fn smoother_rejects_negative_beta() {
    assert_eq!(make(-0.5, 0.0).err(), Some(SmootherError::BetaOutOfRange));
    assert_eq!(make(-f64::MIN_POSITIVE, 0.0).err(), Some(SmootherError::BetaOutOfRange));
    assert_eq!(make(f64::NEG_INFINITY, 0.0).err(), Some(SmootherError::BetaOutOfRange));
}

#[test]
fn smoother_rejects_nan_beta() {
    assert_eq!(make(f64::NAN, 0.0).err(), Some(SmootherError::BetaOutOfRange));
}

#[test]
fn smoother_rejects_nan_start_value() {
    assert_eq!(make(0.5, f32::NAN).err(), Some(SmootherError::StartValueNotFinite));
}

#[test]
fn smoother_rejects_infinite_start_value() {
    assert_eq!(make(0.5, f32::INFINITY).err(), Some(SmootherError::StartValueNotFinite));
    assert_eq!(make(0.5, f32::NEG_INFINITY).err(), Some(SmootherError::StartValueNotFinite));
}

#[test]
fn smoother_reports_the_coefficient_first() {
    assert_eq!(make(1.0, f32::NAN).err(), Some(SmootherError::BetaOutOfRange));
}

#[test]
fn smoother_accepts_the_borders_of_the_range() {
    assert!(make(0.0, 0.0).is_ok());
    assert!(make(-0.0, 0.0).is_ok());
    assert!(make(1.0 - f64::EPSILON / 2.0, 0.0).is_ok());
    assert!(make(f64::from_bits(1), f32::MAX).is_ok());
    assert!(make(0.5, f32::MIN).is_ok());
}

#[test]
fn smoother_handles_nan_target() {
    let mut smoother = smoother(0.5, 0.5);
    // Process a few normal values first
    next(&mut smoother, 1.0);
    let last_valid = next(&mut smoother, 1.0);

    // NaN should return the last valid value
    let result = next(&mut smoother, f32::NAN);
    assert_eq!(result, last_valid);

    // Processing should continue normally after NaN
    let continued = next(&mut smoother, 1.0);
    assert!(continued >= last_valid); // Should continue from where it was
}

#[test]
fn smoother_handles_infinity_target() {
    let mut smoother = smoother(0.5, 0.5);
    // Process a normal value first
    next(&mut smoother, 1.0);
    let last_valid = next(&mut smoother, 1.0);

    // Infinity should return the last valid value
    let result_pos_inf = next(&mut smoother, f32::INFINITY);
    assert_eq!(result_pos_inf, last_valid);

    let result_neg_inf = next(&mut smoother, f32::NEG_INFINITY);
    assert_eq!(result_neg_inf, last_valid);

    // Processing should continue normally after infinity
    let continued = next(&mut smoother, 1.0);
    assert!(continued >= last_valid); // Should continue from where it was
}

#[test]
fn smoother_reset_works_with_different_start_values() {
    // Test with a positive start value
    let mut smoother_pos = smoother(0.9, 2.0);
    for _ in 0..100 {
        next(&mut smoother_pos, 10.0);
    }
    smoother_pos.reset();
    let after_reset = next(&mut smoother_pos, 3.5);
    assert!(after_reset < 3.0); // Should be close to the start value of 2.0

    // Test with a negative start value
    let mut smoother_neg = smoother(0.9, -2.0);
    for _ in 0..100 {
        next(&mut smoother_neg, 10.0);
    }
    smoother_neg.reset();
    let after_reset_neg = next(&mut smoother_neg, 5.0);
    assert!(after_reset_neg < -1.0); // Should be close to the start value of -2.0
}

#[test]
fn smoother_extreme_value_transitions() {
    let mut smoother = smoother(0.1, 0.0); // Fast smoothing

    // Test large positive to large negative transition
    for _ in 0..50 {
        next(&mut smoother, 1e6);
    }
    let high_value = next(&mut smoother, 1e6);
    assert!(high_value > 1e5); // Should be close to target

    for _ in 0..50 {
        next(&mut smoother, -1e6);
    }
    let low_value = next(&mut smoother, -1e6);
    assert!(low_value < -1e5); // Should be close to new target
}

#[test]
fn default_coefficient_is_the_half_life_of_500_calls() {
    let beta = (-2.0_f64.ln() / 500.0).exp();
    assert_eq!(audio_utils::tiny_smoother::DEFAULT_BETA, beta.to_bits());
    let mut ours = TinySmoother::default();
    let mut machine = MachineSmoother::new(beta, 0.0);
    for _ in 0..5_000 {
        assert_eq!(next(&mut ours, 1.0).to_bits(), machine.next(1.0).to_bits());
    }
}

#[test]
fn the_501st_output_of_the_default_smoother_is_exact() {
    let mut ours = TinySmoother::default();
    for _ in 0..500 {
        next(&mut ours, 1.0);
    }
    let beta = f64::from_bits(0x3FEF_F4A6_BE86_B754);
    let mut expected = 0.0f64;
    for _ in 0..501 {
        expected = 1.0 - beta * (1.0 - expected);
    }
    assert_eq!(next(&mut ours, 1.0).to_bits(), (expected as f32).to_bits());
}

#[test]
fn first_step_is_the_formula() {
    // 10 - 0.5 * (10 - 2) = 6, and 6 - 0.5 * (6 - 6) = 6 for a reached target
    let mut s = smoother(0.5, 2.0);
    assert_eq!(next(&mut s, 10.0), 6.0);
    assert_eq!(next(&mut s, 6.0), 6.0);
    assert_eq!(next(&mut s, 6.0), 6.0);
    // 0 - 0.25 * (0 - 6) = 1.5
    let mut q = smoother(0.25, 6.0);
    assert_eq!(next(&mut q, 0.0), 1.5);
    assert_eq!(next(&mut q, -1.5), -0.75);
}

#[test]
fn trajectories_agree_with_the_machine() {
    let mut state = 21u64;
    for round in 0..300 {
        let beta = match round % 6 {
            0 => 0.0,
            1 => f64::from_bits(0x3FEF_F4A6_BE86_B754),
            2 => 1.0 - f64::EPSILON / 2.0,
            3 => f64::from_bits(mix(&mut state) % 0x3FF0_0000_0000_0000),
            4 => (mix(&mut state) % 1_000_000) as f64 / 1_000_000.0,
            _ => f64::from_bits(1 + mix(&mut state) % 1000),
        };
        let start = loop {
            let x = f32::from_bits(mix(&mut state) as u32);
            if x.is_finite() {
                break x;
            }
        };
        let mut ours = smoother(beta, start);
        let mut machine = MachineSmoother::new(beta, start);
        let mut target = 1.0f32;
        for step in 0..2_000 {
            match mix(&mut state) % 50 {
                0 => target = f32::from_bits(mix(&mut state) as u32),
                1 => target = (mix(&mut state) % 2001) as f32 / 1000.0 - 1.0,
                2 => target = -target,
                3 => target = 0.0,
                4 => target = f32::from_bits((mix(&mut state) % 0x0100_0000) as u32),
                5 => {
                    ours.reset();
                    machine.reset();
                }
                _ => {}
            }
            let a = next(&mut ours, target);
            let b = machine.next(target);
            assert_eq!(a.to_bits(), b.to_bits(), "round {round} step {step}: {beta:e} {target:e}");
        }
    }
}

#[test]
fn a_reached_target_is_held_exactly() {
    let mut state = 22u64;
    for _ in 0..2_000 {
        let beta = f64::from_bits(mix(&mut state) % 0x3FF0_0000_0000_0000);
        let target = loop {
            let x = f32::from_bits(mix(&mut state) as u32);
            if x.is_finite() {
                break x;
            }
        };
        // a smoother that starts at its target
        let mut s = smoother(beta, target);
        for _ in 0..20 {
            assert_eq!(next(&mut s, target), target);
        }
    }
}

#[test]
fn coefficient_zero_follows_every_target() {
    let mut state = 23u64;
    let mut s = smoother(0.0, 3.0);
    let mut n = smoother(-0.0, -7.5);
    for _ in 0..50_000 {
        let target = f32::from_bits(mix(&mut state) as u32);
        if !target.is_finite() {
            continue;
        }
        assert_eq!(next(&mut s, target), target);
        assert_eq!(next(&mut n, target), target);
    }
}

#[test]
fn reset_starts_the_trajectory_again() {
    let mut used = smoother(0.9, 2.0);
    for _ in 0..1_000 {
        next(&mut used, 10.0);
    }
    next(&mut used, f32::NAN);
    used.reset();
    let mut fresh = smoother(0.9, 2.0);
    for _ in 0..1_000 {
        assert_eq!(next(&mut used, 3.5).to_bits(), next(&mut fresh, 3.5).to_bits());
    }
}

#[test]
fn a_target_that_is_not_a_number_leaves_the_trajectory_alone() {
    let mut disturbed = smoother(0.75, 0.0);
    let mut calm = smoother(0.75, 0.0);
    for i in 0..1_000 {
        let a = next(&mut disturbed, 1.0);
        let b = next(&mut calm, 1.0);
        assert_eq!(a.to_bits(), b.to_bits());
        if i % 7 == 0 {
            assert_eq!(next(&mut disturbed, f32::NAN).to_bits(), a.to_bits());
            assert_eq!(next(&mut disturbed, f32::INFINITY).to_bits(), a.to_bits());
            assert_eq!(next(&mut disturbed, f32::NEG_INFINITY).to_bits(), a.to_bits());
        }
    }
}

#[test]
fn outputs_stay_between_previous_output_and_target() {
    let mut state = 24u64;
    for _ in 0..200 {
        let beta = f64::from_bits(mix(&mut state) % 0x3FF0_0000_0000_0000);
        let mut s = smoother(beta, 0.0);
        let mut previous = 0.0f32;
        for _ in 0..500 {
            let target = (mix(&mut state) % 2001) as f32 / 1000.0 - 1.0;
            let out = next(&mut s, target);
            assert!(previous.min(target) <= out && out <= previous.max(target));
            previous = out;
        }
    }
}
