use discord_voice_echo::bridge::{
    hold_music, integer_samples, load_float_hold_music, load_hold_music, try_hold_music,
    HoldMusicError,
};
use discord_voice_echo::codec::{downmix_stereo, mono_i16_to_stereo_f32_bytes, resample_linear};
use discord_voice_echo::single::{scale, Single};

fn wav(channels: u16, rate: u32, samples: &[i16]) -> Vec<u8> {
    let spec = hound::WavSpec {
        channels,
        sample_rate: rate,
        bits_per_sample: 16,
        sample_format: hound::SampleFormat::Int,
    };
    let mut file = std::io::Cursor::new(Vec::new());
    let mut writer = hound::WavWriter::new(&mut file, spec).unwrap();
    for &sample in samples {
        writer.write_sample(sample).unwrap();
    }
    writer.finalize().unwrap();
    file.into_inner()
}

fn full() -> Single {
    Single { bits: 1.0f32.to_bits() }
}

fn floats(file: &[u8]) -> Result<Vec<Single>, hound::Error> {
    hound::WavReader::new(file)?
        .into_samples::<f32>()
        .map(|sample| sample.map(|s| Single { bits: s.to_bits() }))
        .collect()
}

fn load(file: &[u8], volume: Single) -> Result<Vec<u8>, HoldMusicError> {
    load_hold_music(file, floats(file), volume)
}

fn ok(result: Result<Vec<u8>, HoldMusicError>) -> Vec<u8> {
    match result {
        Ok(bytes) => bytes,
        Err(_) => panic!("no hold music"),
    }
}

#[test]
fn mono_at_channel_rate() {
    let samples = [0, 100, -100, 32767, -32768];
    let bytes = ok(load(&wav(1, 48000, &samples), full()));
    assert_eq!(bytes, mono_i16_to_stereo_f32_bytes(&samples));
    assert_eq!(bytes.len(), 8 * 5);
}

#[test]
fn stereo_is_mixed_scaled_and_resampled() {
    let samples: Vec<i16> = (0..882).map(|i| (i * 73 % 4001 - 2000) as i16).collect();
    let third = Single { bits: 0.3f32.to_bits() };
    let bytes = ok(load(&wav(2, 44100, &samples), third));
    let expected = resample_linear(&scale(&downmix_stereo(&samples), third), 44100, 48000);
    assert_eq!(expected.len(), 480);
    assert_eq!(bytes, mono_i16_to_stereo_f32_bytes(&expected));
    assert_eq!(bytes, hold_music(&samples, 2, 44100, third));
}

#[test]
fn four_channels_are_averaged() {
    let bytes = ok(load(&wav(4, 48000, &[4, 8, 12, 16, -1, -2, -3, -5]), full()));
    assert_eq!(bytes, mono_i16_to_stereo_f32_bytes(&[10, -2]));
}

#[test]
fn volume_zero_is_silence() {
    let zero = Single { bits: 0 };
    let bytes = ok(load(&wav(1, 8000, &[5, -9, 1000]), zero));
    assert_eq!(bytes, vec![0; 8 * 18]);
}

#[test]
fn hold_music_stays_within_bounds() {
    let samples: Vec<i16> = (0..500).map(|i| (i * 7919 % 9001 - 4500) as i16).collect();
    let bytes = hold_music(&samples, 2, 11025, Single { bits: 0.9f32.to_bits() });
    for frame in bytes.chunks(4) {
        let value = f32::from_le_bytes([frame[0], frame[1], frame[2], frame[3]]);
        assert!(-4500.0 / 32768.0 <= value && value <= 4500.0 / 32768.0);
    }
}

#[test]
fn float_samples_become_integers() {
    let floats = [0.0f32, 1.0, -1.0, 0.5, -0.25, 2.0, -2.0, f32::NAN, f32::INFINITY, 1.0e-9];
    let bits: Vec<Single> = floats.iter().map(|f| Single { bits: f.to_bits() }).collect();
    let expected: Vec<i16> =
        floats.iter().map(|s| (s * 32767.0).clamp(-32768.0, 32767.0) as i16).collect();
    assert_eq!(integer_samples(&bits), expected);
    assert_eq!(
        integer_samples(&bits),
        vec![0, 32767, -32767, 16383, -8191, 32767, -32768, 0, 32767, 0]
    );
}

fn float_wav(channels: u16, rate: u32, samples: &[f32]) -> Vec<u8> {
    let spec = hound::WavSpec {
        channels,
        sample_rate: rate,
        bits_per_sample: 32,
        sample_format: hound::SampleFormat::Float,
    };
    let mut file = std::io::Cursor::new(Vec::new());
    let mut writer = hound::WavWriter::new(&mut file, spec).unwrap();
    for &sample in samples {
        writer.write_sample(sample).unwrap();
    }
    writer.finalize().unwrap();
    file.into_inner()
}

#[test]
fn float_files_are_converted() {
    let samples: Vec<f32> = (0..882).map(|i| (i * 73 % 4001 - 2000) as f32 / 1500.0).collect();
    let file = float_wav(2, 44100, &samples);
    let third = Single { bits: 0.3f32.to_bits() };
    let pcm: Vec<i16> =
        samples.iter().map(|s| (s * 32767.0).clamp(-32768.0, 32767.0) as i16).collect();
    let expected = hold_music(&pcm, 2, 44100, third);
    assert_eq!(expected.len(), 8 * 480);
    assert_eq!(ok(load(&file, third)), expected);
    let bits = floats(&file).unwrap();
    assert_eq!(ok(load_float_hold_music(&file, &bits, third)), expected);
    let half = ok(load(&float_wav(1, 48000, &[0.5]), full()));
    assert_eq!(half, mono_i16_to_stereo_f32_bytes(&[16383]));
}

#[test]
fn float_files_that_cannot_be_played() {
    let mut file = float_wav(1, 48000, &[0.5, 0.25]);
    let cut = &file[..file.len() - 1];
    assert!(matches!(load(cut, full()), Err(HoldMusicError::Wav(_))));
    let header = file.windows(4).position(|w| w == b"fmt ").unwrap() + 12;
    for byte in &mut file[header..header + 8] {
        *byte = 0;
    }
    let bits = vec![full(), full()];
    assert!(matches!(load(&file, full()), Err(HoldMusicError::Unplayable)));
    assert!(matches!(
        load_float_hold_music(&file, &bits, full()),
        Err(HoldMusicError::Unplayable)
    ));
    assert!(matches!(
        load_float_hold_music(b"not a WAV file", &bits, full()),
        Err(HoldMusicError::Wav(_))
    ));
}

#[test]
fn files_that_cannot_be_read() {
    assert!(matches!(load(&[], full()), Err(HoldMusicError::Wav(_))));
    assert!(matches!(load(b"not a WAV file", full()), Err(HoldMusicError::Wav(_))));
    let whole = wav(1, 48000, &[1, 2, 3]);
    let cut = load(&whole[..whole.len() - 1], full());
    assert!(matches!(cut, Err(HoldMusicError::Wav(_))));
}

#[test]
fn unplayable_rates() {
    assert!(matches!(
        try_hold_music(&[1, 2], 1, 0, full()),
        Err(HoldMusicError::Unplayable)
    ));
    assert_eq!(ok(try_hold_music(&[], 1, 0, full())), Vec::<u8>::new());
    assert_eq!(ok(try_hold_music(&[1], 2, 0, full())), Vec::<u8>::new());
    assert_eq!(ok(try_hold_music(&[7], 1, 48000, full())), mono_i16_to_stereo_f32_bytes(&[7]));
    // The rate and the byte rate of the header, both zero
    let mut file = wav(1, 48000, &[1, 2]);
    for byte in &mut file[24..32] {
        *byte = 0;
    }
    assert!(matches!(load(&file, full()), Err(HoldMusicError::Unplayable)));
}
