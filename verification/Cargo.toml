[package]
name = "frame_relay"
version = "0.1.0"
edition = "2021"
publish = false

[dependencies]
tokio = { version = "1", features = ["rt-multi-thread", "net", "sync", "macros", "fs", "io-util"] }
tokio-tungstenite = "*"
futures-util = "0.3"
