[package]
name = "disk_rank"
version = "0.1.0"
edition = "2021"
publish = false

[dependencies]
tokio = { version = "1", features = ["fs", "macros", "rt-multi-thread", "sync", "time"] }
