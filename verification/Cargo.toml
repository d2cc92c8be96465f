[package]
name = "sirraya-ml-dsa-65"
version = "0.1.0"
edition = "2021"
publish = false

[dependencies]
sha3 = "0.10"
sha2 = "0.10"
hex = "0.4"
rand_core = { version = "0.6", features = ["getrandom"] }
serde_json = "1"
base64 = "0.22"
bs58 = "0.5"
