[package]
name = "privacy_stablecoin"
version = "0.1.0"
edition = "2021"
publish = false

[dependencies]
ark-bn254 = "=0.4.0"
ark-ec = "=0.4.2"
ark-ff = "=0.4.2"
ark-serialize = "=0.4.2"
ark-std = "=0.4.0"
poseidon-bn128 = "=0.1.1"
scalarff = { version = "=0.4.3", features = ["alt_bn128"] }
num-bigint = "=0.4.8"
rand = "=0.8.8"
sha2 = "=0.10.9"
hex = "=0.4.3"
serde = { version = "=1.0.229", features = ["derive"] }
serde_json = "=1.0.154"
thiserror = "=1.0.69"
wasm-bindgen = "=0.2.130"
serde-wasm-bindgen = "=0.6.5"
console_error_panic_hook = "=0.1.7"
