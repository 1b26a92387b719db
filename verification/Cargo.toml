[package]
name = "application"
version = "0.1.0"
edition = "2021"
publish = false

[dependencies]
serde = { version = "1", features = ["derive"] }
serde_json = "1"
thiserror = "2"
unicode-segmentation = "1"
uuid = { version = "1", features = ["v4"] }
lru = "0.12"
sha2 = "0.10"
tokio = { version = "1", features = ["time", "rt", "macros"] }
