//! WAV files, read by `hound`.
use vstd::prelude::*;

verus! {

#[verifier::external_type_specification]
#[verifier::external_body]
pub struct ExWavError(hound::Error);

/// The channel count, the sample rate and whether the samples are floating point,
/// as the header of a WAV file gives them, where it is accepted.
pub uninterp spec fn wav_header(file: Seq<u8>) -> Option<(u16, u32, bool)>;

/// The integer samples of a WAV file, where they are all there and fit 16 bits.
pub uninterp spec fn wav_samples(file: Seq<u8>) -> Option<Seq<i16>>;

/// `hound::WavReader::new` on the bytes of a file, and `spec` of the reader: the
/// channel count, the sample rate and whether the samples are floating point.
/// Which error comes where the header is not accepted is not stated.
#[verifier::external_body]
pub(crate) fn read_header(file: &[u8]) -> (r: Result<(u16, u32, bool), hound::Error>)
    ensures
        r is Ok <==> wav_header(file@) is Some,
        r matches Ok(header) ==> wav_header(file@) == Some(header),
{
    let spec = hound::WavReader::new(file)?.spec();
    Ok((spec.channels, spec.sample_rate, spec.sample_format == hound::SampleFormat::Float))
}

/// `hound::WavReader::into_samples` on the bytes of a file: all its samples as
/// integers of 16 bits. Which error comes where one cannot be had is not stated.
#[verifier::external_body]
pub(crate) fn read_samples(file: &[u8]) -> (r: Result<Vec<i16>, hound::Error>)
    ensures
        r is Ok <==> wav_samples(file@) is Some,
        r matches Ok(samples) ==> wav_samples(file@) == Some(samples@),
{
    hound::WavReader::new(file)?.into_samples::<i16>().collect()
}

} // verus!
