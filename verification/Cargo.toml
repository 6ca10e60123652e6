[package]
name = "celestium_core"
version = "0.1.0"
edition = "2021"
publish = false

[dependencies]
secp256k1 = "=0.20.3"
sha2 = "=0.9.9"
sha3 = "=0.9.1"
hex = "=0.4.3"
clap = "=2.34.0"
colored = "=2.2.0"
image = "=0.23.14"
indicatif = "0.17"
probability = "=0.17.0"
rand = "=0.8.8"
rayon = "=1.12.0"
serde = { version = "=1.0.229", features = ["derive"] }
serde_json = "=1.0.154"
websocket = "=0.26.5"
