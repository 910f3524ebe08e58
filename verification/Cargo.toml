[package]
name = "kgrtc"
version = "0.1.0"
edition = "2021"
publish = false

[dependencies]
hmac = "0.12"
rand = "0.8"
sha2 = "0.10"
sha3 = "0.10"
