[package]
name = "eks_builder"
version = "0.1.0"
edition = "2021"
publish = false

[dependencies]
serde = { version = "1", features = ["derive"] }
serde_json = "1"
toml = "*"
uuid = { version = "1", features = ["v4"] }
log = "0.4"
env_logger = "*"
figment = { version = "*", features = ["yaml", "toml"] }
