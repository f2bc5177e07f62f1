[package]
name = "abi_codec"
version = "0.1.0"
edition = "2021"
publish = false

[dependencies]
base64 = "*"
hex = "*"
ed25519-dalek = "*"
sha2 = "*"
chrono = "*"
