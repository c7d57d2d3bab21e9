[package]
name = "dungeon_feature"
version = "0.1.0"
edition = "2021"
publish = false

[dependencies]
base64 = "=0.22.1"
bevy = { version = "=0.18.1", default-features = false }
clap = { version = "=4.6.7", features = ["derive"] }
image = { version = "=0.25.10", default-features = false, features = ["png"] }
indicatif = "=0.18.6"
rand = "=0.9.5"
reqwest = { version = "=0.12.28", default-features = false, features = ["json", "rustls-tls"] }
rig-core = "=0.32.0"
serde = { version = "=1.0.229", features = ["derive"] }
serde_json = "=1.0.154"
thiserror = "=2.0.21"
tokio = { version = "=1.54.1", features = ["macros", "rt-multi-thread", "time"] }
tracing = "=0.1.44"
tracing-subscriber = { version = "=0.3.23", features = ["env-filter"] }
