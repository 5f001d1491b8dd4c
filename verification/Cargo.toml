[package]
name = "agario_core"
version = "0.1.0"
edition = "2021"
publish = false

[dependencies]
rand = "0.8"
ethers = { version = "2", default-features = false }
tokio = { version = "1", features = ["rt-multi-thread", "macros", "sync", "time", "net"] }
tokio-tungstenite = "*"
tokio-stream = "*"
futures-util = "*"
jsonrpc-core = "18"
serde = { version = "1", features = ["derive"] }
serde_json = "1"
anyhow = "1"
dotenv = "*"
