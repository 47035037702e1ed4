[package]
name = "xiv_core"
version = "0.1.0"
edition = "2021"
publish = false

[dependencies]
crc32fast = "=1.5.4"
flate2 = "=1.1.10"
brotli = "=9.1.1"
zstd = "=0.14.3"
serde = { version = "=1.0.229", features = ["derive"] }
serde_json = "=1.0.154"
http-content-range = "*"
jiff = { version = "*", features = ["serde"] }
