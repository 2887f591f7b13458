//! What the bridge hands to the voice channel for playback.
use crate::bridge::message;
use crate::codec::{decode_mulaw, mono_i16_to_stereo_f32_bytes, resample_linear, resampled_length};
use crate::codec::{lines, mulaw, rates, resample, stereo};
use vstd::prelude::*;

verus! {

/// Commands sent from the bridge receive loop to the playback loop.
pub enum PlaybackCommand {
    /// Complete TTS response (mu-law bytes) ready for playback.
    PlayTts(Vec<u8>),
    /// Start looping hold music.
    HoldStart,
    /// Stop hold music.
    HoldStop,
}

/// A playback command with its bytes as a sequence.
pub enum PlaybackView {
    PlayTts(Seq<u8>),
    HoldStart,
    HoldStop,
}

impl View for PlaybackCommand {
    type V = PlaybackView;

    open spec fn view(&self) -> PlaybackView {
        match *self {
            PlaybackCommand::PlayTts(data) => PlaybackView::PlayTts(data@),
            PlaybackCommand::HoldStart => PlaybackView::HoldStart,
            PlaybackCommand::HoldStop => PlaybackView::HoldStop,
        }
    }
}

/// The samples at the channel's rate of a TTS response.
pub open spec fn tts_samples(mulaw: Seq<u8>) -> Seq<i16> {
    resample::resampled(mulaw::decoded_all(mulaw), rates::BRIDGE_RATE, rates::CHANNEL_RATE)
}

/// The playback bytes of a TTS response of `len` bytes are no more than an
/// allocation may hold. They are 48 for each byte as long as their number is exact
/// in double precision.
pub open spec fn playable(len: int) -> bool {
    ||| 48 * len <= isize::MAX && 6 * len < 0x40_0000_0000_0000
    ||| 8 * resample::resampled_len(len, rates::BRIDGE_RATE, rates::CHANNEL_RATE) <= isize::MAX
}

/// Decode a complete TTS mu-law buffer into stereo bytes for playback.
///
/// Decodes mu-law → PCM 8kHz → resample to 48kHz → stereo bytes.
pub fn decode_tts_for_playback(mulaw: &[u8]) -> (r: Vec<u8>)
    requires
        playable(mulaw@.len() as int),
    ensures
        r@ == stereo::stereo_bytes(tts_samples(mulaw@)),
{
    let pcm_8k: Vec<i16> = decode_mulaw(mulaw);
    proof {
        if 0 < 6 * mulaw@.len() < 0x40_0000_0000_0000 {
            rates::lemma_upsampled_len(mulaw@.len() as int);
        }
    }
    let pcm_48k: Vec<i16> = resample_linear(
        pcm_8k.as_slice(),
        rates::BRIDGE_RATE,
        rates::CHANNEL_RATE,
    );
    mono_i16_to_stereo_f32_bytes(pcm_48k.as_slice())
}

/// Whether the playback bytes of a TTS response can be made.
pub fn is_playable(mulaw: &[u8]) -> (r: bool)
    ensures
        r == playable(mulaw@.len() as int),
{
    proof {
        if 0 < 6 * mulaw@.len() < 0x40_0000_0000_0000 {
            rates::lemma_upsampled_len(mulaw@.len() as int);
        }
    }
    match resampled_length(mulaw.len(), rates::BRIDGE_RATE, rates::CHANNEL_RATE) {
        Some(n) => n <= isize::MAX as usize / 8,
        None => false,
    }
}

/// Every byte of a TTS response plays for six frames of eight bytes, the first of
/// which is the sample that the byte stands for.
pub proof fn lemma_tts_frames(mulaw: Seq<u8>, j: int)
    requires
        6 * mulaw.len() < 0x40_0000_0000_0000,
    ensures
        stereo::stereo_bytes(tts_samples(mulaw)).len() == 48 * mulaw.len(),
        0 <= j < mulaw.len() ==> tts_samples(mulaw)[6 * j] == mulaw::decoded(mulaw[j]),
{
    rates::lemma_upsampled(mulaw::decoded_all(mulaw), j);
}

/// What a user said, played back as it came over the bridge, passes through the
/// samples that were kept of it, each off by what mu-law leaves out of it.
pub proof fn lemma_echo(pcm_48k_mono: Seq<i16>, j: int)
    requires
        pcm_48k_mono.len() < 0x20_0000_0000_0000,
        0 <= j < (pcm_48k_mono.len() + 5) / 6,
    ensures
        tts_samples(message::user_audio(pcm_48k_mono)).len() == 6 * ((pcm_48k_mono.len() + 5) / 6),
        tts_samples(message::user_audio(pcm_48k_mono))[6 * j] == mulaw::decoded(
            mulaw::encoded(pcm_48k_mono[6 * j]),
        ),
        -1000 < pcm_48k_mono[6 * j] - tts_samples(message::user_audio(pcm_48k_mono))[6 * j] < 1000,
{
    rates::lemma_decimated(pcm_48k_mono, rates::CHANNEL_RATE, rates::BRIDGE_RATE, 6, j);
    let sent = message::user_audio(pcm_48k_mono);
    lemma_tts_frames(sent, j);
    mulaw::lemma_sample_round_trip(pcm_48k_mono[6 * j]);
}

/// `mulaw` with the positive zero in place of the negative one.
pub open spec fn one_zero(mulaw: Seq<u8>) -> Seq<u8> {
    mulaw.map_values(|b: u8| if b == 0x7F { 0xFFu8 } else { b })
}

/// Sending what was played gives the bytes of the response back. Only negative zero
/// comes back as the positive one.
pub proof fn lemma_echo_back(mulaw: Seq<u8>)
    requires
        6 * mulaw.len() < 0x40_0000_0000_0000,
    ensures
        message::user_audio(tts_samples(mulaw)) == one_zero(mulaw),
{
    let pcm = mulaw::decoded_all(mulaw);
    rates::lemma_there_and_back(pcm);
    assert forall|i: int| 0 <= i < mulaw.len() implies mulaw::encoded_all(pcm)[i] == one_zero(
        mulaw,
    )[i] by {
        mulaw::lemma_code_round_trip(mulaw[i]);
    }
    assert(mulaw::encoded_all(pcm) =~= one_zero(mulaw));
}

/// Sending the samples that are read from the playback bytes of a response undoes the
/// playback path.
pub proof fn lemma_playback_undone(mulaw: Seq<u8>, pcm: Seq<i16>)
    requires
        6 * mulaw.len() < 0x40_0000_0000_0000,
        pcm.len() == 6 * mulaw.len(),
        forall|i: int|
            0 <= i < pcm.len() ==> #[trigger] pcm[i] as int as real == 32768real * stereo::left(
                stereo::stereo_bytes(tts_samples(mulaw)),
                i,
            ).value(),
    ensures
        message::user_audio(pcm) == one_zero(mulaw),
{
    let played = tts_samples(mulaw);
    lemma_tts_frames(mulaw, 0);
    assert forall|i: int| 0 <= i < pcm.len() implies pcm[i] == played[i] by {
        stereo::lemma_samples_read_back(played, i);
    }
    assert(pcm =~= played);
    lemma_echo_back(mulaw);
}

/// The samples of a TTS response follow the straight lines between the samples that its
/// bytes stand for, six to each: sample `i` lies at `i / 6`, up to the rounding of
/// double precision, and is less than one away from its line. From the last byte on it
/// is the sample of that byte.
#[verifier::spinoff_prover]
pub proof fn lemma_tts_follows_lines(mulaw: Seq<u8>, i: int)
    requires
        0 <= i < tts_samples(mulaw).len(),
    ensures
        ({
            let p = resample::position(i, 8000, 48000);
            let k = p.floor();
            let out = tts_samples(mulaw)[i];
            &&& 0x8_0000_0000_0000real * (6real * p - i as real) <= i as real
            &&& 0x8_0000_0000_0000real * (i as real - 6real * p) <= i as real
            &&& k + 1 < mulaw.len() ==> ({
                let a = mulaw::decoded(mulaw[k]) as int;
                let b = mulaw::decoded(mulaw[k + 1]) as int;
                let y = a as real + (b - a) as real * (p - k as real);
                let v = out as int as real;
                &&& -1real < v - y < 1real
                &&& y >= 0real ==> v >= 0real && 0x8_0000_0000real * (v - y) <= 1real
                &&& y <= 0real ==> v <= 0real && 0x8_0000_0000real * (y - v) <= 1real
            })
            &&& k + 1 >= mulaw.len() ==> out == mulaw::decoded(mulaw.last())
        }),
{
    let pcm = mulaw::decoded_all(mulaw);
    lines::lemma_follows_lines(pcm, rates::BRIDGE_RATE, rates::CHANNEL_RATE, i);
    lines::lemma_position_near(i, rates::BRIDGE_RATE, rates::CHANNEL_RATE);
    lemma_sixths(resample::position(i, rates::BRIDGE_RATE, rates::CHANNEL_RATE), i);
}

#[verifier::spinoff_prover]
proof fn lemma_sixths(p: real, i: int)
    requires
        0x8_0000_0000_0000real * (p * 48000real - (i * 8000) as real) <= (i * 8000) as real,
        0x8_0000_0000_0000real * ((i * 8000) as real - p * 48000real) <= (i * 8000) as real,
    ensures
        0x8_0000_0000_0000real * (6real * p - i as real) <= i as real,
        0x8_0000_0000_0000real * (i as real - 6real * p) <= i as real,
{
    assert((i * 8000) as real == 8000real * i as real);
}

/// What is sent of a user is the code of every sixth sample, in order.
pub proof fn lemma_user_audio(pcm_48k_mono: Seq<i16>, j: int)
    requires
        pcm_48k_mono.len() < 0x20_0000_0000_0000,
    ensures
        message::user_audio(pcm_48k_mono).len() == (pcm_48k_mono.len() + 5) / 6,
        0 <= j < (pcm_48k_mono.len() + 5) / 6 ==> message::user_audio(pcm_48k_mono)[j]
            == mulaw::encoded(pcm_48k_mono[6 * j]),
{
    rates::lemma_decimated(pcm_48k_mono, rates::CHANNEL_RATE, rates::BRIDGE_RATE, 6, j);
}

/// Which responses can be played: those whose playback bytes an allocation may hold.
pub proof fn lemma_playable(len: int)
    requires
        len >= 0,
    ensures
        playable(len) <==> 8 * resample::resampled_len(len, 8000, 48000) <= isize::MAX,
        6 * len < 0x40_0000_0000_0000 ==> (playable(len) <==> 48 * len <= isize::MAX),
{
    if 0 < 6 * len < 0x40_0000_0000_0000 {
        rates::lemma_upsampled_len(len);
    }
}

/// The bytes of a command are those that it holds.
pub proof fn lemma_command_bytes(data: Vec<u8>)
    ensures
        PlaybackCommand::PlayTts(data)@ == PlaybackView::PlayTts(data@),
        PlaybackCommand::HoldStart@ == PlaybackView::HoldStart,
        PlaybackCommand::HoldStop@ == PlaybackView::HoldStop,
{
}

} // verus!
