[package]
name = "snell"
version = "6.2.1"
edition = "2021"
publish = false

[dependencies]
aes-gcm = "0.10"
anyhow = "1"
argon2 = "0.5"
blake2 = "0.10"
hickory-resolver = "*"
libc = "0.2"
lru = "*"
parking_lot = "0.12"
rand = "0.8"
rcgen = "0.13"
rustls = "0.23"
socket2 = "*"
tokio = { version = "1", features = ["full"] }
tokio-rustls = "0.26"
tracing = "0.1"
tracing-subscriber = { version = "0.3", features = ["env-filter", "json"] }
zeroize = "1"
