[package]
name = "tour_guide"
version = "0.1.0"
edition = "2021"
publish = false

[dependencies]
tokio = { version = "1", features = ["rt", "net", "time", "io-util", "sync"] }
