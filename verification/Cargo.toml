[package]
name = "section_trust"
version = "0.1.0"
edition = "2021"
publish = false

[dependencies]
threshold_crypto = "0.4"
bincode = "1"
tiny-keccak = { version = "2", features = ["sha3"] }

[dev-dependencies]
xor_name = "1"
bls_signature_aggregator = "*"
