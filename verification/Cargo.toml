[package]
name = "npmfs"
version = "0.1.0"
edition = "2021"
publish = false

[dependencies]
sha1 = "=0.11.0"
sha2 = "=0.11.0"
md-5 = "=0.11.0"
data-encoding = "=2.11.1"
flate2 = "=1.1.10"
tar = "=0.4.46"
web-time = "=1.1.0"
serde = { version = "=1.0.229", features = ["derive"] }
serde_json = "=1.0.151"
anyhow = "=1.0.104"
futures = "=0.3.34"
reqwest = { version = "=0.13.5", default-features = false }
tokio-fs-ext = "*"
