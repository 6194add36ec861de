[package]
name = "toychain"
version = "0.1.0"
edition = "2021"
publish = false

[dependencies]
sled = "*"
ring = "*"
bs58 = "*"
rust-crypto = "*"
