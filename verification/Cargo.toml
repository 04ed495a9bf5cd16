[package]
name = "seekfs"
version = "0.1.0"
edition = "2021"
publish = false

[dependencies]
anyhow = "1"
async-trait = "0.1"
aws-config = "1"
aws-sdk-s3 = "=1.157.0"
axum = "=0.7.9"
backoff = { version = "0.4", features = ["tokio"] }
bytes = "1"
clap = { version = "4", features = ["derive"] }
crc32c = "=0.6.9"
flate2 = "=1.1.10"
futures = "0.3"
hex = "=0.4.3"
mountpoint-s3-client = "=0.22.1"
parking_lot = "=0.12.5"
redb = "=2.6.4"
reqwest = { version = "0.12", default-features = false, features = ["rustls-tls"] }
serde = { version = "1", features = ["derive"] }
serde_json = "1"
sha2 = "=0.11.1"
tempfile = "3"
thiserror = "2"
tokio = { version = "=1.54.1", features = ["full"] }
toml = "=0.8.23"
tracing = "0.1"
tracing-subscriber = { version = "0.3", features = ["env-filter"] }
