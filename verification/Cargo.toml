[package]
name = "homa_lite"
version = "0.1.0"
edition = "2021"
publish = false

[dependencies]
sp-arithmetic = { version = "*", default-features = false, features = ["std"] }
sp-crypto-hashing = { version = "*", default-features = false, features = ["std"] }
