[package]
name = "discord_voice_echo"
version = "0.1.0"
edition = "2021"
publish = false

[dependencies]
base64 = "0.22"
dotenvy = "0.15"
futures-util = { version = "0.3", features = ["sink"] }
hound = "3.5"
serde = { version = "1", features = ["derive"] }
serde_json = "1"
tokio = { version = "1", features = ["macros", "net", "rt-multi-thread", "sync"] }
tokio-tungstenite = "0.26"
toml = "0.8"
tracing = "0.1"
tracing-subscriber = { version = "0.3", features = ["env-filter"] }
