[package]
name = "geyser_services"
version = "0.1.0"
edition = "2021"
publish = false

[dependencies]
anchor-lang = "0.26"
anyhow = "1"
async-channel = "1"
async-trait = "0.1"
bytemuck = "1"
futures-channel = { version = "0.3", features = ["sink"] }
futures-util = { version = "0.3", features = ["sink"] }
itertools = "=0.10.5"
log = "0.4"
serde = { version = "1", features = ["derive"] }
serde_json = "=1.0.154"
solana-logger = "~1.14"
solana-sdk = "=1.14.29"
tokio = { version = "1", features = ["full"] }
tokio-tungstenite = "0.17"
toml = "0.5"
