[package]
name = "mredis"
version = "0.1.0"
edition = "2021"
publish = false

[dependencies]
rustc-hash = "*"
tokio = { version = "*", features = ["full"] }
tracing = "*"
tracing-subscriber = "*"
