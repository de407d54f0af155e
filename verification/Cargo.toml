[package]
name = "secret_env"
version = "0.1.0"
edition = "2021"
publish = false

[dependencies]
serde_json = "1"
aws-config = "1"
aws-sdk-secretsmanager = "1"
tokio = { version = "1", features = ["macros", "rt-multi-thread"] }
