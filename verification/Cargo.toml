[package]
name = "frost_ristretto255"
version = "0.1.0"
edition = "2021"
publish = false

[dependencies]
curve25519-dalek = "3"
hex = "0.4"
rand_core = "0.5"
serde = { version = "1", features = ["derive"] }
sha2 = "0.9"
zeroize = "1"

[dev-dependencies]
rand = "0.7"
