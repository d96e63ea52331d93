use audio_utils::double::Double;
use audio_utils::single::Single;

fn single(x: f32) -> Single {
    Single::from_bits(x.to_bits())
}

fn double(x: f64) -> Double {
    Double::from_bits(x.to_bits())
}

/// A fixed sequence of well mixed 64-bit numbers.
fn scramble(state: &mut u64) -> u64 {
    *state = state.wrapping_mul(6364136223846793005).wrapping_add(1442695040888963407);
    let mut z = *state;
    z ^= z >> 33;
    z = z.wrapping_mul(0xff51afd7ed558ccd);
    z ^= z >> 33;
    z
}

#[test]
fn widening_agrees_with_the_machine_on_chosen_values() {
    let values = [
        0.0f32,
        -0.0,
        1.0,
        -1.0,
        0.5,
        1.0e-5,
        22.387211,
        f32::MIN_POSITIVE,
        f32::MAX,
        f32::MIN,
        f32::EPSILON,
        f32::from_bits(1),
        f32::from_bits(0x007F_FFFF),
        f32::from_bits(0x0080_0000),
        f32::INFINITY,
        f32::NEG_INFINITY,
    ];
    for x in values {
        assert_eq!(Double::from_single(single(x)).to_bits(), (x as f64).to_bits(), "{x}");
    }
}

#[test]
fn widening_agrees_with_the_machine_on_many_patterns() {
    let mut state = 1u64;
    for _ in 0..200_000 {
        let bits = scramble(&mut state) as u32;
        let x = f32::from_bits(bits);
        let r = Double::from_single(Single::from_bits(bits));
        if x.is_nan() {
            assert!(f64::from_bits(r.to_bits()).is_nan());
        } else {
            assert_eq!(r.to_bits(), (x as f64).to_bits(), "{bits:#x}");
        }
    }
}

#[test]
fn widening_a_nan_gives_the_quiet_nan() {
    let r = Double::from_single(single(f32::NAN));
    assert_eq!(r.to_bits(), 0x7FF8_0000_0000_0000);
    assert!(r.is_nan());
}

#[test]
fn narrowing_agrees_with_the_machine_on_chosen_values() {
    let values = [
        0.0f64,
        -0.0,
        1.0,
        -1.0,
        0.1,
        1.0e-5,
        1.0e-40,
        -1.0e-40,
        1.0e-46,
        7.0e-46,
        1.0e-300,
        3.4028234663852886e38,
        3.4028235677973366e38,
        3.4028235677973362e38,
        3.4028235677973370e38,
        1.0e39,
        -1.0e39,
        f64::MAX,
        f64::MIN_POSITIVE,
        f64::from_bits(1),
        1.0000000596046448,
        1.0000000596046447,
        1.0000000596046450,
        1.0000001788139343,
        f64::INFINITY,
        f64::NEG_INFINITY,
    ];
    for x in values {
        assert_eq!(double(x).to_single().to_bits(), (x as f32).to_bits(), "{x:e}");
    }
}

#[test]
fn narrowing_agrees_with_the_machine_on_many_patterns() {
    let mut state = 2u64;
    for i in 0..400_000 {
        let mut bits = scramble(&mut state);
        if i % 2 == 0 {
            // move the exponent into the range of binary32 and its borders
            let e = 1023 - 160 + (scramble(&mut state) % 320);
            bits = (bits & 0x800F_FFFF_FFFF_FFFF) | (e << 52);
        }
        if i % 8 == 0 {
            // exact ties and their neighbours
            bits = (bits & !0x1FFF_FFFF) | 0x1000_0000;
            bits = bits.wrapping_add(scramble(&mut state) % 3).wrapping_sub(1);
        }
        let x = f64::from_bits(bits);
        let r = Double::from_bits(bits).to_single();
        if x.is_nan() {
            assert!(f32::from_bits(r.to_bits()).is_nan());
        } else {
            assert_eq!(r.to_bits(), (x as f32).to_bits(), "{bits:#x}");
        }
    }
}

#[test]
fn narrowing_undoes_widening() {
    let mut state = 3u64;
    for _ in 0..200_000 {
        let bits = scramble(&mut state) as u32;
        let x = Single::from_bits(bits);
        if x.is_nan() {
            continue;
        }
        assert_eq!(Double::from_single(x).to_single().to_bits(), bits);
    }
}

#[test]
fn classification_agrees_with_the_machine() {
    let mut state = 4u64;
    for _ in 0..100_000 {
        let b = scramble(&mut state);
        let s = b as u32;
        assert_eq!(Single::from_bits(s).is_finite(), f32::from_bits(s).is_finite());
        assert_eq!(Single::from_bits(s).is_nan(), f32::from_bits(s).is_nan());
        assert_eq!(Single::from_bits(s).is_sign_negative(), f32::from_bits(s).is_sign_negative());
        assert_eq!(Single::from_bits(s).abs().to_bits(), f32::from_bits(s).abs().to_bits());
        assert_eq!(Double::from_bits(b).is_finite(), f64::from_bits(b).is_finite());
        assert_eq!(Double::from_bits(b).is_nan(), f64::from_bits(b).is_nan());
        assert_eq!(Double::from_bits(b).is_sign_negative(), f64::from_bits(b).is_sign_negative());
        assert_eq!(Double::from_bits(b).abs().to_bits(), f64::from_bits(b).abs().to_bits());
    }
    assert!(!single(f32::INFINITY).is_finite());
    assert!(!single(f32::NAN).is_finite());
    assert!(single(f32::MAX).is_finite());
    assert!(!double(f64::NEG_INFINITY).is_finite());
    assert!(double(f64::MAX).is_finite());
}
