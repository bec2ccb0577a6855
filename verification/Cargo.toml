[package]
name = "lockbox"
version = "0.1.0"
edition = "2021"
publish = false

[dependencies]
aws-lc-rs = "=1.18.1"
aws-sdk-s3 = "=1.152.0"
axum = "=0.8.9"
axum-server = { version = "=0.8.0", features = ["tls-rustls"] }
base64 = "=0.13.1"
futures-util = "=0.3.34"
hyper = "=1.11.1"
rand = "=0.8.8"
serde = { version = "=1.0.229", features = ["derive"] }
sha2 = "=0.10.9"
tokio = { version = "=1.53.2", features = ["full"] }
tower-http = { version = "=0.7.1", features = ["cors"] }
