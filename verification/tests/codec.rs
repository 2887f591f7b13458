use discord_voice_echo::codec::{
    decode_mulaw, downmix, downmix_stereo, encode_mulaw, mono_i16_to_stereo_f32_bytes,
    mulaw_decode_sample, mulaw_encode_sample, normalize, resample_linear, resampled_length,
};

#[test]
fn mulaw_roundtrip() {
    // Roundtrip should be close (mu-law is lossy but within ~1 LSB)
    for sample in [-32000i16, -1000, 0, 1000, 32000] {
        let encoded = mulaw_encode_sample(sample);
        let decoded = mulaw_decode_sample(encoded);
        let diff = (sample as i32 - decoded as i32).abs();
        assert!(
            diff < 1000,
            "sample={sample}, decoded={decoded}, diff={diff}"
        );
    }
}

#[test]
fn resample_identity() {
    let input = vec![1, 2, 3, 4, 5];
    let output = resample_linear(&input, 8000, 8000);
    assert_eq!(input, output);
}

#[test]
fn resample_downsample() {
    // 48kHz → 8kHz: 6:1 ratio, 960 samples → 160
    let input: Vec<i16> = (0..960).map(|i| (i * 10) as i16).collect();
    let output = resample_linear(&input, 48000, 8000);
    assert_eq!(output.len(), 160);
}

#[test]
fn resample_upsample() {
    // 8kHz → 48kHz: 1:6 ratio, 160 samples → 960
    let input: Vec<i16> = (0..160).map(|i| (i * 100) as i16).collect();
    let output = resample_linear(&input, 8000, 48000);
    assert_eq!(output.len(), 960);
}

#[test]
fn stereo_f32_byte_count() {
    let mono = vec![0i16; 960];
    let bytes = mono_i16_to_stereo_f32_bytes(&mono);
    // 960 mono → 1920 stereo f32 → 7680 bytes
    assert_eq!(bytes.len(), 960 * 2 * 4);
}

/// The conversion in floating point.
fn resampled_in_floats(input: &[i16], from_rate: u32, to_rate: u32) -> Vec<i16> {
    if from_rate == to_rate || input.is_empty() {
        return input.to_vec();
    }
    let ratio = from_rate as f64 / to_rate as f64;
    let len = ((input.len() as f64) / ratio).ceil() as usize;
    let mut output = Vec::new();
    for i in 0..len {
        let pos = i as f64 * ratio;
        let k = pos as usize;
        let frac = pos - k as f64;
        output.push(if k + 1 < input.len() {
            let a = input[k] as f64;
            let b = input[k + 1] as f64;
            (a + (b - a) * frac) as i16
        } else {
            input[input.len() - 1]
        });
    }
    output
}

/// Samples that jump about the whole range.
fn noise(len: usize, mut seed: u32) -> Vec<i16> {
    let mut samples = Vec::new();
    for _ in 0..len {
        seed = seed.wrapping_mul(1664525).wrapping_add(1013904223);
        samples.push((seed >> 16) as u16 as i16);
    }
    samples
}

#[test]
fn resampling_agrees_with_floating_point() {
    let rates = [
        (8000, 48000), (48000, 8000), (44100, 48000), (22050, 48000), (11025, 48000),
        (96000, 48000), (48000, 44100), (1, 3), (3, 1), (7, 11), (16000, 8000), (192000, 7),
        (u32::MAX, u32::MAX - 1), (32000, 12345),
    ];
    for (n, (from, to)) in rates.into_iter().enumerate() {
        for len in [1, 2, 3, 5, 160, 777] {
            let input = noise(len, n as u32 * 31 + len as u32);
            let expected = resampled_in_floats(&input, from, to);
            assert_eq!(resample_linear(&input, from, to), expected, "{from} to {to}, {len}");
            assert_eq!(resampled_length(len, from, to), Some(expected.len()));
        }
    }
}

#[test]
fn resampling_exact_values() {
    assert_eq!(resample_linear(&[0, 100], 1, 2), vec![0, 50, 100, 100]);
    assert_eq!(resample_linear(&[0, -100], 1, 2), vec![0, -50, -100, -100]);
    assert_eq!(resample_linear(&[0, 1], 1, 2), vec![0, 0, 1, 1]);
    assert_eq!(resample_linear(&[10, 20, 30, 40], 2, 1), vec![10, 30]);
    assert_eq!(resample_linear(&[10, 20, 30], 2, 1), vec![10, 30]);
}

#[test]
fn resampling_edge_rates() {
    assert_eq!(resample_linear(&[], 0, 48000), Vec::<i16>::new());
    assert_eq!(resample_linear(&[5, 6], 0, 0), vec![5, 6]);
    assert_eq!(resample_linear(&[5, 6], 8000, 0), Vec::<i16>::new());
    assert_eq!(resampled_length(2, 8000, 0), Some(0));
    assert_eq!(resampled_length(usize::MAX, 1, u32::MAX), None);
}

#[test]
fn there_and_back_again() {
    let input = noise(160, 9);
    let up = resample_linear(&input, 8000, 48000);
    assert_eq!(up.len(), 960);
    for j in 0..160 {
        assert_eq!(up[6 * j], input[j]);
    }
    assert_eq!(resample_linear(&up, 48000, 8000), input);
}

#[test]
fn downsampling_keeps_every_sixth_sample() {
    let input = noise(961, 4);
    let output = resample_linear(&input, 48000, 8000);
    assert_eq!(output.len(), 161);
    for i in 0..161 {
        assert_eq!(output[i], input[6 * i]);
    }
}

#[test]
fn resampling_stays_within_bounds() {
    let input: Vec<i16> = noise(300, 1).into_iter().map(|s| s / 100).collect();
    let (lo, hi) = (*input.iter().min().unwrap(), *input.iter().max().unwrap());
    for s in resample_linear(&input, 44100, 48000) {
        assert!(lo <= s && s <= hi);
    }
}

#[test]
fn mulaw_known_codes() {
    assert_eq!(mulaw_encode_sample(0), 0xFF);
    assert_eq!(mulaw_encode_sample(-1), 0x7F);
    assert_eq!(mulaw_encode_sample(32767), 0x80);
    assert_eq!(mulaw_encode_sample(-32768), 0x00);
    assert_eq!(mulaw_encode_sample(1000), 0xCE);
    assert_eq!(mulaw_decode_sample(0xFF), 0);
    assert_eq!(mulaw_decode_sample(0x7F), 0);
    assert_eq!(mulaw_decode_sample(0x80), 32124);
    assert_eq!(mulaw_decode_sample(0x00), -32124);
    assert_eq!(mulaw_decode_sample(0xCE), 988);
}

#[test]
fn mulaw_codes_survive_a_round_trip() {
    for code in 0..=255u8 {
        let again = mulaw_encode_sample(mulaw_decode_sample(code));
        assert_eq!(again, if code == 0x7F { 0xFF } else { code });
    }
    let codes: Vec<u8> = (0..=255u8).filter(|&c| c != 0x7F).collect();
    assert_eq!(encode_mulaw(&decode_mulaw(&codes)), codes);
}

#[test]
fn mulaw_is_close_and_ordered() {
    let mut before = i16::MIN;
    for sample in i16::MIN..=i16::MAX {
        let decoded = mulaw_decode_sample(mulaw_encode_sample(sample));
        assert!((sample as i32 - decoded as i32).abs() < 1000);
        assert!(before <= decoded);
        before = decoded;
    }
}

#[test]
fn mulaw_buffers() {
    assert_eq!(encode_mulaw(&[0, -1, 32767, -32768]), vec![0xFF, 0x7F, 0x80, 0x00]);
    assert_eq!(decode_mulaw(&[0xFF, 0x80, 0x00]), vec![0, 32124, -32124]);
    assert!(encode_mulaw(&[]).is_empty());
    assert!(decode_mulaw(&[]).is_empty());
}

#[test]
fn stereo_downmix_averages() {
    assert_eq!(downmix_stereo(&[100, 200, -5, 4, -3, -4]), vec![150, 0, -3]);
    assert_eq!(downmix_stereo(&[32767, 32767, -32768, -32768]), vec![32767, -32768]);
    assert_eq!(downmix_stereo(&[10, 20, 30]), vec![15]);
    assert!(downmix_stereo(&[1]).is_empty());
}

#[test]
fn downmix_of_any_channel_count() {
    assert_eq!(downmix(&[7, 8, 9], 0), vec![7, 8, 9]);
    assert_eq!(downmix(&[7, 8, 9], 1), vec![7, 8, 9]);
    let input = noise(101, 6);
    assert_eq!(downmix(&input, 2), downmix_stereo(&input));
    assert_eq!(downmix(&[1, 2, 6, -1, -2, -5, 9, 9], 3), vec![3, -2]);
    assert_eq!(downmix(&[32767; 6], 6), vec![32767]);
    assert_eq!(downmix(&[1, 2], u16::MAX), Vec::<i16>::new());
}

#[test]
fn playback_bytes_are_floats() {
    let mono: Vec<i16> = (i16::MIN..=i16::MAX).collect();
    let bytes = mono_i16_to_stereo_f32_bytes(&mono);
    for (i, &sample) in mono.iter().enumerate() {
        let expected = (sample as f32 / 32768.0).to_le_bytes();
        assert_eq!(bytes[8 * i..8 * i + 4], expected);
        assert_eq!(bytes[8 * i + 4..8 * i + 8], expected);
        assert_eq!(normalize(sample).bits, (sample as f32 / 32768.0).to_bits());
    }
    assert_eq!(mono_i16_to_stereo_f32_bytes(&[16384]), vec![0, 0, 0, 63, 0, 0, 0, 63]);
}
