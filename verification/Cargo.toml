[package]
name = "vortex"
version = "0.1.0"
edition = "2021"
publish = false

[dependencies]
blake3 = { version = "1", features = ["pure"] }
crc32fast = "1"
serde_json = "1"
serde = { version = "1", features = ["derive"] }
bytes = "1"
clap = { version = "4", features = ["derive"] }
memmap2 = "0.9"
thiserror = "1"
tokio = { version = "1", features = ["full"] }
tracing = "0.1"
tracing-subscriber = { version = "0.3", features = ["env-filter"] }
