use discord_voice_echo::single::{scale, scale_sample, Single};

fn in_floats(sample: i16, factor: f32) -> i16 {
    (sample as f32 * factor).clamp(-32768.0, 32767.0) as i16
}

#[test]
fn scaling_agrees_with_floating_point() {
    let factors = [
        0.0, -0.0, 0.3, 1.0, 0.5, 2.0, -1.0, 1.5e-5, 3.9e7, 1.0e38, -3.0e38, 1.0e-45, 1.0e-38,
        0.1, 0.99999994, 1.0000001, 32767.0, f32::INFINITY, f32::NEG_INFINITY, f32::NAN, f32::MAX,
        f32::MIN_POSITIVE, 7.7777, -0.33333334, 8388608.0, 4194304.0, 0.000030517578,
    ];
    for factor in factors {
        for sample in i16::MIN..=i16::MAX {
            let scaled = scale_sample(sample, Single { bits: factor.to_bits() });
            assert_eq!(scaled, in_floats(sample, factor), "{sample} times {factor}");
        }
    }
    let mut bits: u32 = 1;
    for _ in 0..200000 {
        bits = bits.wrapping_mul(1664525).wrapping_add(1013904223);
        let sample = (bits >> 13) as u16 as i16;
        let scaled = scale_sample(sample, Single { bits });
        assert_eq!(scaled, in_floats(sample, f32::from_bits(bits)), "{sample} times {bits:x}");
    }
}

#[test]
fn scaling_exact_values() {
    let third = Single { bits: 0.3f32.to_bits() };
    assert_eq!(scale(&[1000, -1000, 32767, 0], third), vec![300, -300, 9830, 0]);
    let full = Single { bits: 0x3F80_0000 };
    assert_eq!(scale(&[5, -7, -32768, 32767], full), vec![5, -7, -32768, 32767]);
    assert_eq!(scale(&[5, -7], Single { bits: 0 }), vec![0, 0]);
}

#[test]
fn volume_attenuates_and_keeps_order() {
    for volume in [0.0f32, 0.1, 0.3, 0.77, 1.0] {
        let factor = Single { bits: volume.to_bits() };
        let mut before = i16::MIN;
        for sample in i16::MIN..=i16::MAX {
            let scaled = scale_sample(sample, factor);
            assert!((scaled as i32).abs() <= (sample as i32).abs());
            assert!(before <= scaled);
            before = scaled;
        }
    }
}
