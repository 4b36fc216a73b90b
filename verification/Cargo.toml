[package]
name = "fhe_orderbook"
version = "0.1.0"
edition = "2021"
publish = false

[dependencies]
tfhe = { version = "=0.6.4", features = ["boolean", "shortint", "integer", "x86_64-unix"] }
bincode = "1"
serde = { version = "*", features = ["derive"] }
serde_json = "*"
once_cell = "*"
tokio = { version = "*", features = ["full"] }
axum = "*"
tower-http = { version = "*", features = ["cors"] }
