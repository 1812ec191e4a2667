[package]
name = "rdo"
version = "0.1.0"
edition = "2021"
publish = false

[dependencies]
clap = { version = "*", features = ["derive"] }
config = { version = "*", default-features = false, features = ["toml"] }
home = "*"
log = "*"
pretty_env_logger = "*"
serde = { version = "*", features = ["derive"] }
tokio = { version = "*", features = ["full"] }
