[package]
name = "logu"
version = "0.1.0"
edition = "2021"
publish = false

[dependencies]
anyhow = "=1.0.104"
clap = { version = "=4.6.7", features = ["derive"] }
futures = "=0.3.34"
lru = "=0.12.5"
promkit = "=0.4.6"
strip-ansi-escapes = "=0.2.1"
tokio = { version = "=1.54.1", features = ["full"] }
tokio-util = "=0.7.20"
