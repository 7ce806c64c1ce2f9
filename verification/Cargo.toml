[package]
name = "p99-logger-client"
version = "0.1.0"
edition = "2021"
publish = false

[dependencies]
anyhow = "1"
chrono = "0.4"
crc32fast = "1"
hex = "0.4"
md5 = "0.7"
miniz_oxide = "0.8"
num-bigint = "0.4"
rand = "0.8"
serde = { version = "1", features = ["derive"] }
serde_json = "1"
signal-hook = "0.3"
