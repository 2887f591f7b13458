//! The configuration of the sidecar.
use crate::rounding;
use crate::single::Single;
use vstd::arithmetic::power2::lemma2_to64;
use vstd::prelude::*;

verus! {

#[derive(Debug)]
pub struct Config {
    pub discord: DiscordConfig,
    pub bridge: BridgeConfig,
}

#[derive(Debug)]
pub struct DiscordConfig {
    pub bot_token: String,
    pub guild_id: u64,
    pub voice_channel_id: u64,
}

#[derive(Debug)]
pub struct BridgeConfig {
    /// WebSocket URL for voice-echo's discord-stream endpoint.
    pub voice_echo_ws: String,
    /// Path to hold music WAV file (played while Echo processes a response).
    pub hold_music_file: Option<String>,
    /// Hold music volume (0.0–1.0). Default: 0.3
    pub hold_music_volume: Single,
}

/// The single-precision number nearest to 0.3.
#[verifier::spinoff_prover]
pub fn default_hold_music_volume() -> (r: Single)
    ensures
        r.bits == 0x3E99_999A,
        r.value() == rounding::rounded(3real / 10real, 24),
{
    proof {
        lemma_default_volume();
    }
    Single { bits: 0x3E99_999A }
}

#[verifier::spinoff_prover]
proof fn lemma_default_volume()
    ensures
        (Single { bits: 0x3E99_999A }).value() == rounding::rounded(3real / 10real, 24),
{
    let x = 3real / 10real;
    lemma2_to64();
    rounding::lemma_two_to_reciprocal(2, 4);
    rounding::lemma_two_to_reciprocal(1, 2);
    rounding::lemma_two_to_reciprocal(25, 0x200_0000);
    rounding::lemma_leading(x, -2);
    let unit = rounding::two_to(-25);
    let y = x / unit;
    assert(10real * y == 100663296real) by (nonlinear_arith)
        requires
            y == x / unit,
            10real * x == 3real,
            33554432real * unit == 1real,
            unit > 0real,
    ;
    assert(rounding::nearest_even(y) == 10066330);
    reveal(rounding::rounded);
    reveal(rounding::dyadic);
}

impl BridgeConfig {
    /// A bridge configuration. Without a volume the default one is taken.
    pub fn new(
        voice_echo_ws: String,
        hold_music_file: Option<String>,
        hold_music_volume: Option<Single>,
    ) -> (r: BridgeConfig)
        ensures
            r.voice_echo_ws == voice_echo_ws,
            r.hold_music_file == hold_music_file,
            r.hold_music_volume == match hold_music_volume {
                Some(volume) => volume,
                None => (Single { bits: 0x3E99_999A }),
            },
    {
        let volume: Single = match hold_music_volume {
            Some(volume) => volume,
            None => default_hold_music_volume(),
        };
        BridgeConfig { voice_echo_ws, hold_music_file, hold_music_volume: volume }
    }
}

impl Config {
    /// Takes the bot token from the environment in place of the file's, where the
    /// environment has one.
    pub fn override_bot_token(&mut self, token: Option<String>)
        ensures
            final(self).discord.bot_token == match token {
                Some(text) => text,
                None => old(self).discord.bot_token,
            },
            final(self).discord.guild_id == old(self).discord.guild_id,
            final(self).discord.voice_channel_id == old(self).discord.voice_channel_id,
            final(self).bridge == old(self).bridge,
    {
        if let Some(text) = token {
            self.discord.bot_token = text;
        }
    }
}

} // verus!
