[package]
name = "dtorrent"
version = "0.1.0"
edition = "2021"
publish = false

[dependencies]
rand = "0.8"
sha1 = "0.10"
chrono = "0.4"
native-tls = "0.2"
serde = { version = "1", features = ["derive"] }
serde_json = "1"
clap = { version = "4", features = ["derive"] }
tracing = "0.1"
tracing-subscriber = "0.3"
