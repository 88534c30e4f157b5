[package]
name = "redis"
version = "0.1.0"
edition = "2021"
publish = false

[dependencies]
anyhow = "*"
atoi = "*"
bytes = "*"
clap = { version = "*", features = ["derive"] }
hex = "*"
tokio = { version = "*", features = ["full"] }
