# discord-voice-echo

Discord voice channel sidecar for voice-echo. It bridges the audio of a voice channel
(48 kHz PCM) and the pipeline of voice-echo (8 kHz mu-law) over a local WebSocket that
carries JSON messages.

## Layout

- `src/` is the library, verified with Verus.
  - `codec` – mu-law companding, mixing to one channel, linear resampling and playback
    bytes. `codec::rates` holds what resampling keeps.
  - `bridge` – messages to voice-echo (`message`), events from it (`event`), the receive
    loop as a state machine (`receiver`, with whole runs of it in `session`), playback of TTS
    responses (`playback`) and hold music (`hold_music`).
  - `config` – the configuration and its defaults.
  - `rounding`, `double`, `single` – floating-point numbers as integers: what an operation
    returns is stated over the reals and computed on significands.
  - `encoding`, `json`, `wav`, `decimal` – base64, JSON objects, WAV files and decimal text.
    The first three state what the library expects of `base64`, `serde_json` and `hound`.
- `app/` is the program: arguments, configuration file, WebSocket and tasks.
- `tests/` runs the library.

## Protocol

```
discord-voice-echo → voice-echo:
  {"type": "join", "guild_id": "...", "channel_id": "...", "user_id": "..."}
  {"type": "audio", "user_ssrc": 12345, "user_id": "...", "audio": "<base64 mu-law 8kHz>"}
  {"type": "mark"}
  {"type": "leave"}

voice-echo → discord-voice-echo:
  {"type": "audio", "audio": "<base64 mu-law 8kHz>"}
  {"type": "mark"}
  {"type": "hold_start"}
  {"type": "hold_stop"}
```

`join_message`, `audio_message` and `encode_user_audio` make the first two messages. The
other two are constant and left to the side that holds the voice connection.

## Configuration

`~/.discord-voice-echo/config.toml`:

```toml
[discord]
bot_token = "your-bot-token-here"
guild_id = 123456789012345678
voice_channel_id = 123456789012345678

[bridge]
voice_echo_ws = "ws://127.0.0.1:8443/discord-stream"
hold_music_file = "/path/to/hold.wav"
hold_music_volume = 0.3
```

The bot token can also be set via the `DISCORD_BOT_TOKEN` environment variable.
