[package]
name = "discraft"
version = "0.1.0"
edition = "2021"
publish = false

[dependencies]
tokio = { version = "*", features = ["full"] }
serenity = "*"
clap = { version = "*", features = ["derive"] }
log = "*"
env_logger = "*"
dotenv = "*"

[dev-dependencies]
rand = "*"
