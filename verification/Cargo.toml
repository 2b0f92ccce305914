[package]
name = "parakeet_tdt_app"
version = "0.1.0"
edition = "2021"
publish = false

[dependencies]
anyhow = "1"
ffmpeg-sidecar = "2"
parakeet-rs = "0.4"
tracing = "0.1"
tracing-subscriber = { version = "0.3", features = ["env-filter"] }
