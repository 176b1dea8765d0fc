[package]
name = "canistorage"
version = "0.1.0"
edition = "2021"
publish = false

[dependencies]
candid = "0.10"
ic-cdk = "*"
ic-cdk-macros = "*"
ic-stable-structures = "*"
ic-wasi-polyfill = "*"
serde = { version = "1", features = ["derive"] }
serde_cbor = "0.11"
sha2 = "0.10"
