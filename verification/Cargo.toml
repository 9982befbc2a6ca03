[package]
name = "cordis"
version = "0.1.0"
edition = "2021"
publish = false

[dependencies]
parking_lot = "0.12"
sha2 = "0.10"
thiserror = "2"
tokio = { version = "1", features = ["rt", "rt-multi-thread", "sync", "macros", "time"] }
