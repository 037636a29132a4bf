[package]
name = "ubuntu_drop"
version = "0.1.0"
edition = "2021"
publish = false

[dependencies]
hmac = "=0.12.1"
sha2 = "=0.10.9"
hex = "=0.4.3"
getrandom = "=0.3.4"
qrcode = { version = "=0.14.1", default-features = false, features = ["svg"] }
anyhow = "=1.0.104"
axum = { version = "=0.8.9", features = ["multipart"] }
clap = { version = "=4.6.7", features = ["derive"] }
dirs = "=6.0.0"
ksni = "=0.3.7"
mdns-sd = "=0.13.11"
reqwest = { version = "=0.12.28", default-features = false, features = ["json", "multipart"] }
serde = { version = "=1.0.229", features = ["derive"] }
serde_json = "=1.0.154"
tokio = { version = "=1.54.1", features = ["full"] }
tokio-util = { version = "=0.7.20", features = ["io"] }
