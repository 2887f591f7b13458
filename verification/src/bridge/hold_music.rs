//! Hold music: a WAV file as playback bytes.
use crate::codec::{downmix, mono_i16_to_stereo_f32_bytes, resample_linear, resampled_length};
use crate::codec::{mix, rates, resample, stereo};
use crate::single;
use crate::single::{scale, scale_sample, Single};
use crate::wav;
use vstd::prelude::*;

verus! {

/// Why there is no hold music.
pub enum HoldMusicError {
    /// The file is not a WAV file that can be read.
    Wav(hound::Error),
    /// The sample rate is zero, or the playback bytes are more than an allocation
    /// may hold.
    Unplayable,
}

/// Floating-point samples, in which full scale is one, as integers.
pub open spec fn integers(samples: Seq<Single>) -> Seq<i16> {
    samples.map_values(|s: Single| single::scaled(32767, s) as i16)
}

/// The samples of a file as integers, where they can be had: those of the file itself,
/// or what was read of them as floating point.
pub open spec fn file_samples(
    file: Seq<u8>,
    float: bool,
    floats: Result<Vec<Single>, hound::Error>,
) -> Option<Seq<i16>> {
    if !float {
        wav::wav_samples(file)
    } else {
        match floats {
            Ok(samples) => Some(integers(samples@)),
            Err(_) => None,
        }
    }
}

/// The samples of hold music at the channel's rate: one channel, at `volume`.
pub open spec fn hold_samples(
    samples: Seq<i16>,
    channels: u16,
    sample_rate: u32,
    volume: Single,
) -> Seq<i16> {
    resample::resampled(
        single::scaled_all(mix::mixed(samples, channels as int), volume),
        sample_rate,
        rates::CHANNEL_RATE,
    )
}

/// The number of frames in `len` samples.
pub open spec fn frames(len: int, channels: u16) -> int {
    if channels <= 1 {
        len
    } else {
        len / channels as int
    }
}

/// The playback bytes of `n` frames are no more than an allocation may hold. The
/// product bounds them, so where it is small nothing more is asked.
pub open spec fn loopable(n: int, sample_rate: u32) -> bool {
    ||| n == 0
    ||| sample_rate != 0 && (16 * (n * rates::CHANNEL_RATE) <= isize::MAX || 8
        * resample::resampled_len(n, sample_rate, rates::CHANNEL_RATE) <= isize::MAX)
}

/// Floating-point samples as integers.
pub fn integer_samples(samples: &[Single]) -> (r: Vec<i16>)
    ensures
        r@ == integers(samples@),
{
    let mut out: Vec<i16> = Vec::with_capacity(samples.len());
    let mut i: usize = 0;
    while i < samples.len()
        invariant
            i <= samples@.len(),
            out@ == integers(samples@.take(i as int)),
        decreases samples@.len() - i,
    {
        out.push(scale_sample(32767, samples[i]));
        i = i + 1;
        assert(samples@.take(i as int) =~= samples@.take(i - 1).push(samples@[i - 1]));
    }
    assert(samples@.take(i as int) =~= samples@);
    out
}

/// The playback bytes of hold music: mixes to one channel, applies the volume,
/// resamples to 48kHz and converts to stereo.
pub fn hold_music(samples: &[i16], channels: u16, sample_rate: u32, volume: Single) -> (r: Vec<u8>)
    requires
        loopable(frames(samples@.len() as int, channels), sample_rate),
    ensures
        r@ == stereo::stereo_bytes(hold_samples(samples@, channels, sample_rate, volume)),
{
    let mono: Vec<i16> = downmix(samples, channels);
    let scaled: Vec<i16> = scale(mono.as_slice(), volume);
    proof {
        if scaled@.len() > 0 {
            resample::lemma_resampled_len_bound(
                scaled@.len() as int,
                sample_rate,
                rates::CHANNEL_RATE,
            );
        }
    }
    let pcm_48k: Vec<i16> = resample_linear(scaled.as_slice(), sample_rate, rates::CHANNEL_RATE);
    mono_i16_to_stereo_f32_bytes(pcm_48k.as_slice())
}

/// The playback bytes of hold music, where there are any.
pub fn try_hold_music(
    samples: &[i16],
    channels: u16,
    sample_rate: u32,
    volume: Single,
) -> (r: Result<Vec<u8>, HoldMusicError>)
    ensures
        loopable(frames(samples@.len() as int, channels), sample_rate) ==> (r matches Ok(bytes)
            && bytes@ == stereo::stereo_bytes(
            hold_samples(samples@, channels, sample_rate, volume),
        )),
        !loopable(frames(samples@.len() as int, channels), sample_rate) ==> r
            == Err::<Vec<u8>, HoldMusicError>(HoldMusicError::Unplayable),
{
    let n: usize = if channels <= 1 {
        samples.len()
    } else {
        samples.len() / channels as usize
    };
    let fits: bool = if n == 0 {
        true
    } else if sample_rate == 0 {
        false
    } else {
        proof {
            resample::lemma_resampled_len_bound(n as int, sample_rate, rates::CHANNEL_RATE);
        }
        match resampled_length(n, sample_rate, rates::CHANNEL_RATE) {
            Some(len) => len <= isize::MAX as usize / 8,
            None => false,
        }
    };
    if fits {
        Ok(hold_music(samples, channels, sample_rate, volume))
    } else {
        Err(HoldMusicError::Unplayable)
    }
}

/// Convert a WAV file of floating-point samples, whose header is in `file` and whose
/// samples are `samples`, to stereo 48kHz bytes for playback.
pub fn load_float_hold_music(file: &[u8], samples: &[Single], volume: Single) -> (r: Result<
    Vec<u8>,
    HoldMusicError,
>)
    ensures
        match wav::wav_header(file@) {
            None => r matches Err(HoldMusicError::Wav(_)),
            Some((channels, sample_rate, _)) => if loopable(
                frames(samples@.len() as int, channels),
                sample_rate,
            ) {
                r matches Ok(bytes) && bytes@ == stereo::stereo_bytes(
                    hold_samples(integers(samples@), channels, sample_rate, volume),
                )
            } else {
                r == Err::<Vec<u8>, HoldMusicError>(HoldMusicError::Unplayable)
            },
        },
{
    match wav::read_header(file) {
        Ok((channels, sample_rate, _)) => {
            let pcm: Vec<i16> = integer_samples(samples);
            try_hold_music(pcm.as_slice(), channels, sample_rate, volume)
        },
        Err(e) => Err(HoldMusicError::Wav(e)),
    }
}

/// Convert the bytes of a WAV file to stereo 48kHz bytes for playback.
///
/// Handles any sample rate and channel count by resampling and up/downmixing.
/// `floats` is what reading the samples of the file as floating point gave; it is
/// only used where the header says that they are.
pub fn load_hold_music(
    file: &[u8],
    floats: Result<Vec<Single>, hound::Error>,
    volume: Single,
) -> (r: Result<Vec<u8>, HoldMusicError>)
    ensures
        match wav::wav_header(file@) {
            None => r matches Err(HoldMusicError::Wav(_)),
            Some((channels, sample_rate, float)) => match file_samples(file@, float, floats) {
                None => r matches Err(HoldMusicError::Wav(_)),
                Some(samples) => if loopable(frames(samples.len() as int, channels), sample_rate) {
                    r matches Ok(bytes) && bytes@ == stereo::stereo_bytes(
                        hold_samples(samples, channels, sample_rate, volume),
                    )
                } else {
                    r == Err::<Vec<u8>, HoldMusicError>(HoldMusicError::Unplayable)
                },
            },
        },
        wav::wav_header(file@) matches Some((_, _, true)) ==> (floats matches Err(e) ==> r == Err::<
            Vec<u8>,
            HoldMusicError,
        >(HoldMusicError::Wav(e))),
{
    let (channels, sample_rate, float) = match wav::read_header(file) {
        Ok(header) => header,
        Err(e) => return Err(HoldMusicError::Wav(e)),
    };
    if float {
        return match floats {
            Ok(samples) => load_float_hold_music(file, samples.as_slice(), volume),
            Err(e) => Err(HoldMusicError::Wav(e)),
        };
    }
    match wav::read_samples(file) {
        Ok(samples) => try_hold_music(samples.as_slice(), channels, sample_rate, volume),
        Err(e) => Err(HoldMusicError::Wav(e)),
    }
}

/// At a volume from zero to one, hold music never leaves the bounds of the file's
/// samples and silence.
pub proof fn lemma_hold_music_within(
    samples: Seq<i16>,
    channels: u16,
    sample_rate: u32,
    volume: Single,
    lo: i16,
    hi: i16,
)
    requires
        sample_rate >= 1,
        volume.is_finite(),
        0real <= volume.value() <= 1real,
        lo <= 0 <= hi,
        forall|i: int| 0 <= i < samples.len() ==> lo <= #[trigger] samples[i] <= hi,
    ensures
        forall|i: int|
            0 <= i < hold_samples(samples, channels, sample_rate, volume).len() ==> lo
                <= #[trigger] hold_samples(samples, channels, sample_rate, volume)[i] <= hi,
{
    mix::lemma_mixed_within(samples, channels as int, lo, hi);
    let mono = mix::mixed(samples, channels as int);
    let scaled = single::scaled_all(mono, volume);
    assert forall|i: int| 0 <= i < scaled.len() implies lo <= #[trigger] scaled[i] <= hi by {
        assert(lo <= mono[i] <= hi);
        single::lemma_volume_attenuates(mono[i], volume);
    }
    rates::lemma_resampled_within(scaled, sample_rate, rates::CHANNEL_RATE, lo, hi);
}

/// Hold music at the channel's rate plays eight bytes for each frame.
pub proof fn lemma_hold_music_frames(samples: Seq<i16>, channels: u16, volume: Single)
    ensures
        stereo::stereo_bytes(
            hold_samples(samples, channels, rates::CHANNEL_RATE, volume),
        ).len() == 8 * frames(samples.len() as int, channels),
{
    rates::lemma_same_rate(
        single::scaled_all(mix::mixed(samples, channels as int), volume),
        rates::CHANNEL_RATE,
    );
}

/// Volume zero silences hold music.
pub proof fn lemma_silent_hold_music(
    samples: Seq<i16>,
    channels: u16,
    sample_rate: u32,
    volume: Single,
    i: int,
)
    requires
        sample_rate >= 1,
        volume.is_finite(),
        volume.value() == 0real,
        0 <= i < hold_samples(samples, channels, sample_rate, volume).len(),
    ensures
        hold_samples(samples, channels, sample_rate, volume)[i] == 0,
{
    let mono = mix::mixed(samples, channels as int);
    let scaled = single::scaled_all(mono, volume);
    assert forall|j: int| 0 <= j < scaled.len() implies 0 <= #[trigger] scaled[j] <= 0 by {
        single::lemma_volume_ends(mono[j], volume);
    }
    rates::lemma_resampled_within(scaled, sample_rate, rates::CHANNEL_RATE, 0, 0);
}

/// One channel at the channel's rate and full volume plays as it is.
pub proof fn lemma_hold_music_unchanged(samples: Seq<i16>, volume: Single)
    requires
        volume.is_finite(),
        volume.value() == 1real,
    ensures
        hold_samples(samples, 1, rates::CHANNEL_RATE, volume) == samples,
{
    let scaled = single::scaled_all(samples, volume);
    assert forall|j: int| 0 <= j < samples.len() implies #[trigger] scaled[j] == samples[j] by {
        single::lemma_volume_ends(samples[j], volume);
    }
    assert(scaled =~= samples);
    rates::lemma_same_rate(scaled, rates::CHANNEL_RATE);
}

/// One channel at the channel's rate: every sample is less than one away from the
/// volume times the sample of the file, which it never passes by more than rounding
/// does, and beyond the range of samples it is the nearest end.
pub proof fn lemma_hold_music_gain(samples: Seq<i16>, volume: Single, i: int)
    requires
        0 <= i < samples.len(),
    ensures
        hold_samples(samples, 1, 48000, volume).len() == samples.len(),
        hold_samples(samples, 1, 48000, volume)[i] == single::scaled(samples[i], volume),
        volume.is_finite() ==> ({
            let x = samples[i] as int as real * volume.value();
            let out = hold_samples(samples, 1, 48000, volume)[i] as int;
            &&& x >= 32767real ==> out == 32767
            &&& x <= -32768real ==> out == -32768
            &&& -32768real <= x <= 32767real ==> -1real < out as real - x < 1real
            &&& 0real <= x ==> 0 <= out && 0x100_0000real * (out as real - x) <= x
            &&& x <= 0real ==> out <= 0 && 0x100_0000real * (x - out as real) <= -x
        }),
{
    if volume.is_finite() {
        single::lemma_scaled_near(samples[i], volume);
    }
    single::lemma_sample_range(samples[i], volume);
}

/// The number of channels and the rate change nothing else: channels are mixed before
/// anything is done, and the rate is converted once all else is done.
pub proof fn lemma_hold_music_stages(
    samples: Seq<i16>,
    channels: u16,
    sample_rate: u32,
    volume: Single,
)
    ensures
        hold_samples(samples, channels, sample_rate, volume) == hold_samples(
            mix::mixed(samples, channels as int),
            1,
            sample_rate,
            volume,
        ),
        hold_samples(samples, channels, sample_rate, volume) == resample::resampled(
            hold_samples(samples, channels, 48000, volume),
            sample_rate,
            48000,
        ),
{
    let mono = mix::mixed(samples, channels as int);
    mix::lemma_mixed_frame(mono, 1, 0);
    rates::lemma_same_rate(single::scaled_all(mono, volume), rates::CHANNEL_RATE);
}

/// Music plays the same from one channel as from several that all carry it.
pub proof fn lemma_hold_music_copies(
    mono: Seq<i16>,
    copies: Seq<i16>,
    channels: u16,
    sample_rate: u32,
    volume: Single,
)
    requires
        channels >= 1,
        copies.len() == mono.len() * channels,
        forall|j: int| 0 <= j < copies.len() ==> #[trigger] copies[j] == mono[j / channels as int],
    ensures
        hold_samples(copies, channels, sample_rate, volume) == hold_samples(
            mono,
            1,
            sample_rate,
            volume,
        ),
{
    mix::lemma_mixed_copies(mono, copies, channels as int);
    mix::lemma_mixed_frame(mono, 1, 0);
}

/// Every floating-point sample becomes an integer on its own: less than one away from
/// 32767 times the sample, or the nearest end beyond the range.
pub proof fn lemma_integers_near(x: Seq<Single>, y: Seq<Single>, s: Single)
    ensures
        integers(x + y) == integers(x) + integers(y),
        integers(x).len() == x.len(),
        integers(seq![s]).len() == 1,
        integers(seq![s])[0] == single::scaled(32767, s),
        s.is_finite() ==> ({
            let v = 32767real * s.value();
            let out = integers(seq![s])[0] as int;
            &&& v >= 32767real ==> out == 32767
            &&& v <= -32768real ==> out == -32768
            &&& -32768real <= v <= 32767real ==> -1real < out as real - v < 1real
            &&& 0real <= v ==> 0 <= out && 0x100_0000real * (out as real - v) <= v
            &&& v <= 0real ==> out <= 0 && 0x100_0000real * (v - out as real) <= -v
        }),
{
    assert(integers(x + y) =~= integers(x) + integers(y));
    single::lemma_sample_range(32767, s);
    if s.is_finite() {
        single::lemma_scaled_near(32767, s);
        assert(32767i16 as int as real == 32767real);
    }
}

/// Which music can be played: all of a rate that is not zero whose playback bytes an
/// allocation may hold, and silence at any rate.
pub proof fn lemma_loopable(n: int, sample_rate: u32)
    requires
        n >= 0,
    ensures
        n == 0 ==> loopable(n, sample_rate),
        n > 0 && sample_rate == 0 ==> !loopable(n, sample_rate),
        n > 0 && sample_rate > 0 ==> (loopable(n, sample_rate) <==> 8 * resample::resampled_len(
            n,
            sample_rate,
            48000,
        ) <= isize::MAX),
        sample_rate == 48000 && 8 * n <= isize::MAX ==> loopable(n, sample_rate),
{
    if n > 0 && sample_rate > 0 {
        resample::lemma_resampled_len_bound(n, sample_rate, rates::CHANNEL_RATE);
    }
}

/// A frame is one sample of each channel.
pub proof fn lemma_frames(len: int, channels: u16)
    requires
        len >= 0,
    ensures
        channels <= 1 ==> frames(len, channels) == len,
        channels >= 1 ==> frames(len, channels) * channels <= len < frames(len, channels) * channels
            + channels,
{
    let (n, c) = (frames(len, channels), channels as int);
    if c >= 1 {
        assert(c == 1 ==> len / c == len) by (nonlinear_arith)
            requires
                c >= 1,
        ;
        assert(n * c <= len < n * c + c) by (nonlinear_arith)
            requires
                n == len / c,
                c >= 1,
        ;
    }
}

/// An integer file has its own samples, and a floating-point one those that were read.
pub proof fn lemma_file_samples(
    file: Seq<u8>,
    floats: Result<Vec<Single>, hound::Error>,
    samples: Vec<Single>,
)
    ensures
        file_samples(file, false, floats) == wav::wav_samples(file),
        file_samples(file, true, Ok(samples)) == Some(integers(samples@)),
        floats is Err ==> file_samples(file, true, floats) is None,
{
}

} // verus!
