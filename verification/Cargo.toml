[package]
name = "whirligig_client"
version = "0.1.0"
edition = "2021"
publish = false

[dependencies]
anyhow = "1"
atty = "0.2"
clap = { version = "4", features = ["derive"] }
futures = "0.3"
indicatif = "0.17"
serde = { version = "1", features = ["derive"] }
serde_json = "1"
solana-sdk = "1"
tokio = { version = "1", features = ["full"] }
tokio-tungstenite = "0.21"
tracing = "0.1"
tracing-subscriber = { version = "0.3", features = ["env-filter"] }
