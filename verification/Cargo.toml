[package]
name = "ppoprf"
version = "0.1.0"
edition = "2021"
publish = false

[dependencies]
base64 = "0.13"
curve25519-dalek = { version = "4", features = ["rand_core", "serde"] }
rand_core = { version = "0.6", features = ["getrandom"] }
serde = { version = "1", features = ["derive"] }
strobe-rs = "0.8"
zeroize = "1"

[dev-dependencies]
serde_json = "1"
