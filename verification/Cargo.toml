[package]
name = "tick_core"
version = "0.1.0"
edition = "2021"
publish = false

[dependencies]
anyhow = "*"
base64 = "*"
fastrand = "*"
flate2 = "*"
libc = "*"
serde_json = "*"
sha2 = "*"
uuid = "*"
