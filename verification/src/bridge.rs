//! The bridge to voice-echo: its messages, its events and what they lead to.
pub mod event;
pub mod hold_music;
pub mod message;
pub mod playback;
pub mod receiver;
pub mod session;

pub use event::{event_of, read_event, Event, Reason};
pub use hold_music::{hold_music, integer_samples, load_float_hold_music, load_hold_music, try_hold_music, HoldMusicError};
pub use message::{audio_members, audio_message, encode_user_audio, join_members, join_message};
pub use playback::{decode_tts_for_playback, is_playable, PlaybackCommand};
pub use receiver::{Action, Frame, Phase, Receiver};
