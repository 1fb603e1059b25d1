[package]
name = "cranker_expense"
version = "0.1.0"
edition = "2021"
publish = false

[dependencies]
solana-commitment-config = "2.2"
solana-pubkey = "2.2"
solana-rpc-client = { version = "2.2", default-features = false }
solana-rpc-client-api = "2.2"
solana-signature = "2.2"
solana-transaction-status = "2.2"
tokio = { version = "1", features = ["macros", "rt-multi-thread"] }
