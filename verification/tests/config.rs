use discord_voice_echo::config::{
    default_hold_music_volume, BridgeConfig, Config, DiscordConfig,
};
use discord_voice_echo::single::Single;

fn config() -> Config {
    Config {
        discord: DiscordConfig {
            bot_token: "from the file".to_string(),
            guild_id: 1,
            voice_channel_id: 2,
        },
        bridge: BridgeConfig::new("ws://127.0.0.1:8443/discord-stream".to_string(), None, None),
    }
}

#[test]
fn default_volume() {
    assert_eq!(default_hold_music_volume().bits, 0.3f32.to_bits());
    let config = config();
    assert_eq!(config.bridge.hold_music_volume, default_hold_music_volume());
    assert_eq!(config.bridge.hold_music_file, None);
    assert_eq!(config.bridge.voice_echo_ws, "ws://127.0.0.1:8443/discord-stream");
}

#[test]
fn given_volume() {
    let half = Single { bits: 0.5f32.to_bits() };
    let bridge = BridgeConfig::new(String::new(), Some("hold.wav".to_string()), Some(half));
    assert_eq!(bridge.hold_music_volume, half);
    assert_eq!(bridge.hold_music_file, Some("hold.wav".to_string()));
}

#[test]
fn token_override() {
    let mut config = config();
    config.override_bot_token(None);
    assert_eq!(config.discord.bot_token, "from the file");
    config.override_bot_token(Some("from the environment".to_string()));
    assert_eq!(config.discord.bot_token, "from the environment");
    assert_eq!(config.discord.guild_id, 1);
    assert_eq!(config.discord.voice_channel_id, 2);
}
