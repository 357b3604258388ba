[package]
name = "chat_relay"
version = "0.1.0"
edition = "2021"
publish = false

[dependencies]
uuid = { version = "*", features = ["v4"] }
chrono = "*"
serde = { version = "*", features = ["derive"] }
serde_json = "*"
actix = "*"
actix-web = "*"
actix-web-actors = "*"
tokio = { version = "*", features = ["sync"] }
env_logger = "*"
