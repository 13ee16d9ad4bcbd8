[package]
name = "anyrelay"
version = "0.1.0"
edition = "2021"
publish = false

[dependencies]
serde_json = { version = "=1.0.151", features = ["preserve_order"] }
tokio = { version = "=1.53.2", features = ["full"] }
axum = "=0.8.9"
reqwest = { version = "=0.13.5", default-features = false, features = ["stream"] }
uuid = { version = "=1.27.0", features = ["v4"] }
futures-core = "=0.3.34"
http-body-util = "=0.1.5"
