[package]
name = "ws_fanout"
version = "0.1.0"
edition = "2021"
publish = false

[dependencies]
serde = { version = "=1.0.229", features = ["derive"] }
serde_json = { version = "=1.0.154", features = ["raw_value"] }
tokio = { version = "=1.54.1", features = ["full"] }
tokio-tungstenite = "=0.30.0"
futures-util = { version = "=0.3.34", default-features = false, features = ["sink", "std"] }
thiserror = "=2.0.21"
tracing = "=0.1.44"
jsonwebtoken = { version = "=10.4.0", default-features = false, features = ["rust_crypto"] }
outcry = "*"
