[package]
name = "webrtc_relay"
version = "0.1.0"
edition = "2021"
publish = false

[dependencies]
bytes = "1"
futures = "0.3"
tokio = { version = "1", features = ["macros", "rt", "sync"] }
tracing = "0.1"
webrtc = "0.17"
