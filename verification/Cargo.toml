[package]
name = "plainnote"
version = "0.1.0"
edition = "2021"
publish = false

[dependencies]
chrono = "0.4"
cpal = "*"
notify = "*"
notify-rust = "4"
rand = "0.8"
rand_chacha = "0.3"
rusqlite = { version = "*", features = ["bundled"] }
serde = { version = "1", features = ["derive"] }
serde_yaml = "0.9"
sha2 = "0.10"
thiserror = "*"
tokio = { version = "1", features = ["sync", "time", "rt", "rt-multi-thread", "macros"] }
ulid = "1"
whisper-rs = "*"
zeroize = { version = "1", features = ["derive"] }
