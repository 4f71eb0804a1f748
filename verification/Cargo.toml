[package]
name = "file_downlink"
version = "0.1.0"
edition = "2021"
publish = false

[dependencies]
anyhow = "1"
chrono = { version = "0.4", default-features = false, features = ["std", "clock"] }
crossbeam-channel = "0.5"
serde = { version = "1", features = ["derive"] }
serde_json = "1"
tracing = "0.1"
twox-hash = { version = "2", default-features = false, features = ["xxhash64"] }
uuid = { version = "1", features = ["v4", "serde"] }
