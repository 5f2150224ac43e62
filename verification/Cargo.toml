[package]
name = "r4"
version = "0.1.0"
edition = "2021"
publish = false

[dependencies]
serde_json = "1"
regex = "1"
rand = "0.8"

[dev-dependencies]
rand_chacha = "0.3"
