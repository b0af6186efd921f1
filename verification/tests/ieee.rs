use muse_lib::ieee::{double_bits, duration_bits, pcm_from_bits};

fn reference(bits: u32) -> i16 {
    let sample = f32::from_bits(bits);
    (sample.clamp(-1.0, 1.0) * 32767.0) as i16
}

#[test]
fn pcm_known_values() {
    assert_eq!(pcm_from_bits(0.0f32.to_bits()), 0);
    assert_eq!(pcm_from_bits((-0.0f32).to_bits()), 0);
    assert_eq!(pcm_from_bits(1.0f32.to_bits()), 32767);
    assert_eq!(pcm_from_bits((-1.0f32).to_bits()), -32767);
    assert_eq!(pcm_from_bits(0.5f32.to_bits()), 16383);
    assert_eq!(pcm_from_bits((-0.5f32).to_bits()), -16383);
    assert_eq!(pcm_from_bits(2.5f32.to_bits()), 32767);
    assert_eq!(pcm_from_bits((-7.0f32).to_bits()), -32767);
    assert_eq!(pcm_from_bits(f32::INFINITY.to_bits()), 32767);
    assert_eq!(pcm_from_bits(f32::NEG_INFINITY.to_bits()), -32767);
    assert_eq!(pcm_from_bits(f32::NAN.to_bits()), 0);
    assert_eq!(pcm_from_bits(f32::MIN_POSITIVE.to_bits()), 0);
    assert_eq!(pcm_from_bits(1), 0);
}

#[test]
fn pcm_agrees_with_float_arithmetic_on_a_sweep() {
    let mut bits: u32 = 0;
    loop {
        assert_eq!(pcm_from_bits(bits), reference(bits), "bits {:#x}", bits);
        match bits.checked_add(4099) {
            Some(next) => bits = next,
            None => break,
        }
    }
}

#[test]
fn pcm_agrees_with_float_arithmetic_near_whole_products() {
    // Samples whose product with 32767 lies next to a whole number, where
    // the rounding of the product decides the result.
    for whole in 1..32767u32 {
        let near = whole as f32 / 32767.0;
        let centre = near.to_bits();
        for bits in centre - 3..=centre + 3 {
            assert_eq!(pcm_from_bits(bits), reference(bits), "bits {:#x}", bits);
            let negative = bits | 0x8000_0000;
            assert_eq!(pcm_from_bits(negative), reference(negative), "bits {:#x}", negative);
        }
    }
}

#[test]
fn pcm_agrees_with_float_arithmetic_below_one() {
    let one = 1.0f32.to_bits();
    for bits in one - 70000..=one + 10 {
        assert_eq!(pcm_from_bits(bits), reference(bits), "bits {:#x}", bits);
    }
}

#[test]
fn double_bits_known_values() {
    assert_eq!(double_bits(0), 0);
    assert_eq!(double_bits(1), 1.0f64.to_bits());
    assert_eq!(double_bits(20), 20.0f64.to_bits());
    assert_eq!(double_bits(48000), 0x40E7_7000_0000_0000);
    assert_eq!(double_bits(1040), 1040.0f64.to_bits());
    assert_eq!(double_bits((1 << 53) - 1), 9007199254740991.0f64.to_bits());
    assert_eq!(double_bits(1 << 52), 4503599627370496.0f64.to_bits());
}

#[test]
fn double_bits_agrees_with_the_cast() {
    let mut value: u64 = 0;
    while value < (1 << 53) {
        assert_eq!(double_bits(value), (value as f64).to_bits());
        value = value * 3 + 1;
    }
    for value in 0..5000u64 {
        assert_eq!(double_bits(value), (value as f64).to_bits());
    }
}

fn duration_reference(samples: u64) -> u64 {
    ((samples as f64 / 48000.0) * 1000.0).to_bits()
}

#[test]
fn duration_known_values() {
    assert_eq!(duration_bits(0), 0);
    assert_eq!(duration_bits(960), 20.0f64.to_bits());
    assert_eq!(duration_bits(48000), 1000.0f64.to_bits());
    assert_eq!(duration_bits(7 * 960), 140.0f64.to_bits());
    // A third of a millisecond has no exact double.
    assert_eq!(duration_bits(16), 0.3333333333333333f64.to_bits());
    assert_eq!(duration_bits(1), duration_reference(1));
    assert_eq!(duration_bits((1 << 40) - 1), duration_reference((1 << 40) - 1));
}

#[test]
fn duration_agrees_with_float_arithmetic_for_whole_frames() {
    for frames in 0..2_000_000u64 {
        let samples = frames * 960;
        assert_eq!(duration_bits(samples), duration_reference(samples), "frames {}", frames);
    }
}

#[test]
fn duration_agrees_with_float_arithmetic_on_a_sweep() {
    let mut samples: u64 = 1;
    while samples < (1 << 40) {
        assert_eq!(duration_bits(samples), duration_reference(samples), "samples {}", samples);
        assert_eq!(
            duration_bits(samples - 1),
            duration_reference(samples - 1),
            "samples {}",
            samples - 1
        );
        samples = samples + samples / 1000 + 1;
    }
    let last = 48 * (u32::MAX as u64);
    assert_eq!(duration_bits(last), duration_reference(last));
}
