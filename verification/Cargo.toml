[package]
name = "pakcodec"
version = "0.1.0"
edition = "2021"
publish = false

[dependencies]
aes = "0.7"
base64 = "0.13"
block-modes = "0.8"
sha1 = "0.10"
