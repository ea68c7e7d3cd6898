[package]
name = "muxrs"
version = "0.1.0"
edition = "2021"
publish = false

[dependencies]
anyhow = "1"
futures = "0.3"
log = "0.4"
parking_lot = "0.12"
tokio = { version = "1", features = ["rt", "net", "sync", "io-util", "time"] }
