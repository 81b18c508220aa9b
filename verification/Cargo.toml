[package]
name = "ocirender"
version = "0.2.1"
edition = "2021"
publish = false

[dependencies]
anyhow = "=1.0.104"
base64 = "=0.22.1"
bzip2 = "=0.6.1"
clap = { version = "=4.6.7", features = ["derive"] }
flate2 = "=1.1.10"
futures-util = "=0.3.34"
indicatif = "=0.17.11"
reqwest = { version = "=0.12.28", default-features = false, features = ["rustls-tls", "stream", "json"] }
serde = { version = "=1.0.229", features = ["derive"] }
serde_json = { version = "=1.0.154", features = ["float_roundtrip"] }
sha2 = "=0.10.9"
tar = "=0.4.46"
tempfile = "=3.27.0"
tokio = { version = "=1.54.1", features = ["rt-multi-thread", "macros", "sync", "fs", "io-util"] }
xz2 = "=0.1.7"
zstd = "=0.13.4"
