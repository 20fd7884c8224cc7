[package]
name = "rtc_trial"
version = "0.1.0"
edition = "2021"
publish = false

[dependencies]
anyhow = "1"
chacha20poly1305 = "0.10"
clap = { version = "4", features = ["derive"] }
cpal = "0.15"
opus = "0.3"
rand = "0.8"
sha2 = "0.10"
webrtc-audio-processing = "0.5"
