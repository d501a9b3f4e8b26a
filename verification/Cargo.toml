[package]
name = "secret_message"
version = "0.1.0"
edition = "2021"
publish = false

[dependencies]
actix-web = "4"
deadpool-postgres = "0.14"
tokio-postgres = "0.7"
dotenv = "0.15"
env_logger = "0.11"
serde = { version = "1", features = ["derive"] }
serde_json = "1"
uuid = { version = "1", features = ["v4"] }
