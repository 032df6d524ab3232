[package]
name = "tide"
version = "0.1.0"
edition = "2021"
publish = false

[dependencies]
rust-crypto = "*"
