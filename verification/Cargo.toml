[package]
name = "orderbook_merge"
version = "0.1.0"
edition = "2021"
publish = false

[dependencies]
anyhow = "*"
colored = "*"
futures = "*"
reqwest = { version = "*", default-features = false, features = ["json"] }
rust_decimal = "*"
serde_json = "*"
tokio = { version = "*", features = ["macros", "rt-multi-thread"] }
tokio-stream = "*"
tokio-tungstenite = "*"
url = "*"
