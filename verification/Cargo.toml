[package]
name = "mini_redis"
version = "0.1.0"
edition = "2021"
publish = false

[dependencies]
tokio = { version = "*", features = ["full"] }
bytes = "*"
tracing = "*"
clap = { version = "*", features = ["derive"] }
