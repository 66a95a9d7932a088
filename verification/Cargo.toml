[package]
name = "metaboss"
version = "0.1.0"
edition = "2021"
publish = false

[dependencies]
anyhow = "1"
base64 = "=0.13.1"
borsh = "0.9"
bs58 = "=0.4.0"
indexmap = { version = "=1.9.3", features = ["serde"] }
log = "0.4"
mpl-token-metadata = "=1.8.5"
serde = { version = "1", features = ["derive"] }
serde_json = "=1.0.154"
solana-program = "=1.16.25"
solana-sdk = "=1.16.25"
spl-associated-token-account = "=1.1.3"
spl-token = "=3.5.0"
tokio = { version = "1", default-features = false, features = ["rt", "sync", "macros"] }
