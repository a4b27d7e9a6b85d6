[package]
name = "arc_dev_kit"
version = "0.1.0"
edition = "2021"
publish = false

[dependencies]
dashmap = "6"
erased-serde = "0.4"
futures = "0.3"
inventory = "0.3"
serde = { version = "1", features = ["derive"] }
serde_json = "1"
tokio = { version = "1", features = ["sync", "time", "rt", "macros"] }
tokio-util = "0.7"
