[package]
name = "keyscraper"
version = "0.1.0"
edition = "2021"
publish = false

[dependencies]
solana-keypair = "=3.1.2"
solana-pubkey = "=3.0.0"
solana-rpc-client = { version = "=3.1.14", default-features = false }
solana-signer = "=3.0.1"
tokio = { version = "*", features = ["rt-multi-thread"] }
