[package]
name = "jiyunet"
version = "0.1.0"
edition = "2021"
publish = false

[dependencies]
rust-crypto = "*"
sha2 = "*"
ed25519-dalek = "*"
rand = "*"
