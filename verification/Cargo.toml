[package]
name = "rt_one"
version = "0.1.0"
edition = "2021"
publish = false

[dependencies]
anyhow = "*"
clap = { version = "*", features = ["derive"] }
rand = "*"
tracing = "*"
tracing-subscriber = "*"
