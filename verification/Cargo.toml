[package]
name = "safenode"
version = "0.1.0"
edition = "2021"
publish = false

[dependencies]
blsttc = "8"
hex = "0.4"
tiny-keccak = { version = "2", features = ["sha3"] }
tokio = { version = "1", features = ["fs", "io-util"] }
