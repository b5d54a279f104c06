[package]
name = "cortex25519"
version = "0.1.0"
edition = "2021"
publish = false

[dependencies]
sha2 = "0.10"
curve25519-dalek = { version = "4", features = ["legacy_compatibility"] }
serde = { version = "1", features = ["derive"] }
serde_json = "1"
hex-serde = "0.1"
quote = "1"
proc-macro2 = "1"
