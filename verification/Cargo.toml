[package]
name = "monotree"
version = "0.1.0"
edition = "2021"
publish = false

[dependencies]
blake2-rfc = "0.2"
blake3 = "1"
sha2 = "0.10"
sha3 = "0.10"
rand = "0.8"
hashbrown = "0.15"
