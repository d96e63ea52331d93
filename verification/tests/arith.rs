use audio_utils::double::Double;

fn double(x: f64) -> Double {
    Double::from_bits(x.to_bits())
}

fn mix(state: &mut u64) -> u64 {
    *state = state.wrapping_mul(6364136223846793005).wrapping_add(1442695040888963407);
    let mut z = *state;
    z ^= z >> 31;
    z = z.wrapping_mul(0xbf58476d1ce4e5b9);
    z ^= z >> 29;
    z
}

/// Bit patterns that stress the corners: all exponents, fractions that are
/// sparse, dense or near a power of two.
fn pattern(state: &mut u64) -> u64 {
    let r = mix(state);
    let sign = r & 0x8000_0000_0000_0000;
    let exponent = match (r >> 8) % 8 {
        0 => 0,
        1 => 1,
        2 => 0x7FE,
        3 => 0x3FF + (mix(state) % 5),
        4 => 0x3FF - (mix(state) % 60),
        5 => 0x3FF + (mix(state) % 130),
        _ => mix(state) % 0x7FF,
    };
    let fraction = match (r >> 16) % 6 {
        0 => 0,
        1 => 0x000F_FFFF_FFFF_FFFF,
        2 => 1u64 << (mix(state) % 52),
        3 => 0x000F_FFFF_FFFF_FFFF - (1u64 << (mix(state) % 52)),
        4 => mix(state) & 0x000F_FFFF_F000_0000,
        _ => mix(state) & 0x000F_FFFF_FFFF_FFFF,
    };
    sign | (exponent << 52) | fraction
}

fn same(ours: Double, machine: f64) -> bool {
    if machine.is_nan() {
        ours.is_nan()
    } else {
        ours.to_bits() == machine.to_bits()
    }
}

#[test]
fn subtraction_agrees_with_the_machine_on_chosen_values() {
    let values = [
        0.0f64,
        -0.0,
        1.0,
        -1.0,
        1.0 + f64::EPSILON,
        1.0 - f64::EPSILON / 2.0,
        0.1,
        0.3,
        1.0e-5,
        1.0e6,
        -1.0e6,
        1.0e300,
        f64::MAX,
        f64::MIN,
        f64::MIN_POSITIVE,
        f64::from_bits(1),
        f64::from_bits(0x000F_FFFF_FFFF_FFFF),
        f64::INFINITY,
        f64::NEG_INFINITY,
        f64::NAN,
        9007199254740992.0,
        9007199254740993.0,
        18014398509481984.0,
        36893488147419103232.0,
    ];
    for a in values {
        for b in values {
            let r = double(a).subtract(double(b));
            assert!(same(r, a - b), "{a:e} - {b:e}: {:#x} {:#x}", r.to_bits(), (a - b).to_bits());
        }
    }
}

#[test]
fn subtraction_agrees_with_the_machine_on_many_patterns() {
    let mut state = 11u64;
    for _ in 0..400_000 {
        let a = pattern(&mut state);
        let b = pattern(&mut state);
        let r = Double::from_bits(a).subtract(Double::from_bits(b));
        let m = f64::from_bits(a) - f64::from_bits(b);
        assert!(same(r, m), "{a:#x} - {b:#x}: {:#x} {:#x}", r.to_bits(), m.to_bits());
    }
}

#[test]
fn subtraction_agrees_with_the_machine_on_near_operands() {
    let mut state = 12u64;
    for _ in 0..400_000 {
        let a = pattern(&mut state);
        // an operand whose exponent is at most 70 binary places away
        let shift = mix(&mut state) % 141;
        let ea = (a >> 52) & 0x7FF;
        let eb = (ea + shift).saturating_sub(70).min(0x7FE);
        let b = (pattern(&mut state) & 0x800F_FFFF_FFFF_FFFF) | (eb << 52);
        let r = Double::from_bits(a).subtract(Double::from_bits(b));
        let m = f64::from_bits(a) - f64::from_bits(b);
        assert!(same(r, m), "{a:#x} - {b:#x}: {:#x} {:#x}", r.to_bits(), m.to_bits());
    }
}

#[test]
fn multiplication_agrees_with_the_machine_on_chosen_values() {
    let values = [
        0.0f64,
        -0.0,
        1.0,
        -1.0,
        0.5,
        2.0,
        1.0 + f64::EPSILON,
        0.9986146661010181,
        0.1,
        3.0,
        1.0e-5,
        1.0e6,
        1.0e154,
        1.0e155,
        1.0e-154,
        1.0e-162,
        1.0e300,
        f64::MAX,
        f64::MIN,
        f64::MIN_POSITIVE,
        f64::from_bits(1),
        f64::from_bits(0x000F_FFFF_FFFF_FFFF),
        f64::INFINITY,
        f64::NEG_INFINITY,
        f64::NAN,
    ];
    for a in values {
        for b in values {
            let r = double(a).multiply(double(b));
            assert!(same(r, a * b), "{a:e} * {b:e}: {:#x} {:#x}", r.to_bits(), (a * b).to_bits());
        }
    }
}

#[test]
fn multiplication_agrees_with_the_machine_on_many_patterns() {
    let mut state = 13u64;
    for i in 0..400_000 {
        let a = pattern(&mut state);
        let mut b = pattern(&mut state);
        if i % 2 == 0 {
            // let the product land among the subnormals and at the largest
            // finite values
            let ea = ((a >> 52) & 0x7FF) as i64;
            let target = if i % 4 == 0 { 0x3FF - 1022 - 30 } else { 0x3FF + 1000 };
            let eb = (target - (ea - 0x3FF) + (mix(&mut state) % 60) as i64).clamp(0, 0x7FE);
            b = (b & 0x800F_FFFF_FFFF_FFFF) | ((eb as u64) << 52);
        }
        let r = Double::from_bits(a).multiply(Double::from_bits(b));
        let m = f64::from_bits(a) * f64::from_bits(b);
        assert!(same(r, m), "{a:#x} * {b:#x}: {:#x} {:#x}", r.to_bits(), m.to_bits());
    }
}

#[test]
fn nan_results_are_the_quiet_nan() {
    let nan = 0x7FF8_0000_0000_0000u64;
    assert_eq!(double(f64::INFINITY).subtract(double(f64::INFINITY)).to_bits(), nan);
    assert_eq!(double(f64::NAN).subtract(double(1.0)).to_bits(), nan);
    assert_eq!(double(0.0).multiply(double(f64::INFINITY)).to_bits(), nan);
    assert_eq!(double(1.0).multiply(Double::from_bits(0xFFF0_0000_0000_0001)).to_bits(), nan);
}

#[test]
fn zero_differences_have_the_sign_that_the_standard_gives() {
    assert_eq!(double(0.0).subtract(double(0.0)).to_bits(), 0.0f64.to_bits());
    assert_eq!(double(-0.0).subtract(double(0.0)).to_bits(), (-0.0f64).to_bits());
    assert_eq!(double(0.0).subtract(double(-0.0)).to_bits(), 0.0f64.to_bits());
    assert_eq!(double(-0.0).subtract(double(-0.0)).to_bits(), 0.0f64.to_bits());
    assert_eq!(double(2.5).subtract(double(2.5)).to_bits(), 0.0f64.to_bits());
    assert_eq!(double(-2.5).subtract(double(-2.5)).to_bits(), 0.0f64.to_bits());
}
