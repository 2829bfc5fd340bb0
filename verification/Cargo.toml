[package]
name = "draw_relay"
version = "0.1.0"
edition = "2021"
publish = false

[dependencies]
tokio = { version = "1", features = ["sync", "rt-multi-thread", "macros"] }
warp = "0.3"
futures-util = "0.3"
tokio-stream = "0.1"
