[package]
name = "nanobyte"
version = "0.1.0"
edition = "2021"
publish = false

[dependencies]
anyhow = "=1.0.104"
axum = "=0.7.9"
bincode = { version = "=2.0.1", features = ["serde"] }
blake3 = { version = "1", features = ["pure"] }
clap = { version = "=4.6.7", features = ["derive"] }
crc = "=3.4.0"
exopack = { version = "=0.2.1", features = ["interface", "triple_sims"] }
hex = "=0.4.3"
hickory-resolver = "=0.24.4"
reqwest = { version = "=0.12.28", default-features = false, features = ["json"] }
serde = { version = "=1.0.229", features = ["derive"] }
serde_json = "=1.0.154"
serialport = { version = "=4.10.1", default-features = false }
sled = "=0.34.7"
thiserror = "=1.0.69"
tokio = { version = "=1.54.1", features = ["full"] }
tracing = "=0.1.44"
tracing-subscriber = { version = "=0.3.23", features = ["env-filter"] }
zstd = "=0.13.4"
