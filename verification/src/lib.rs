//! Discord voice sidecar for voice-echo: the audio formats, the bridge protocol and
//! the configuration.
pub mod bridge;
pub mod codec;
pub mod config;
pub mod decimal;
pub mod double;
pub mod encoding;
pub mod json;
pub mod rounding;
pub mod single;
pub mod wav;
