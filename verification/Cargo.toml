[package]
name = "sweat_jar"
version = "0.1.0"
edition = "2021"
publish = false

[dependencies]
ed25519-dalek = "=2.2.0"
crypto-hash = "=0.3.4"
near-sdk = { version = "=5.30.0", default-features = false, features = ["non-contract-usage"] }
near-plugins = "=0.5.3"

[dev-dependencies]
fake = "=2.10.0"
