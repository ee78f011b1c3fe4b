[package]
name = "peregrine"
version = "0.1.0"
edition = "2021"
publish = false

[dependencies]
smallvec = "1"
bevy = { version = "0.17", default-features = false }
chrono = "0.4"
rand = "0.9"
tracing-subscriber = { version = "0.3", features = ["env-filter"] }
tracing-appender = "0.2"
