//! Audio formats: companding, channel mixing, sample rates and playback bytes.
pub mod lines;
pub mod mix;
pub mod mulaw;
pub mod rates;
pub mod resample;
pub mod stereo;

pub use mix::{downmix, downmix_stereo};
pub use mulaw::{decode_mulaw, encode_mulaw, mulaw_decode_sample, mulaw_encode_sample};
pub use resample::{resample_linear, resampled_length};
pub use stereo::{mono_i16_to_stereo_f32_bytes, normalize};
