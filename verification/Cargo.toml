[package]
name = "routing_core"
version = "0.1.0"
edition = "2021"
publish = false

[dependencies]
near-crypto = "*"
near-primitives = "*"
near-primitives-core = "*"
borsh = "*"
sha2 = "*"
ed25519-dalek = "*"
