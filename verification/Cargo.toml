[package]
name = "hammer"
version = "0.1.0"
edition = "2021"
publish = false

[dependencies]
bincode = "1.3"
bs58 = "0.4"
ed25519-dalek = "1.0"
rand = "0.8"
solana-rpc-client = { version = "=1.18.26", default-features = false }
solana-sdk = "=1.18.26"
url = "=2.4.1"
