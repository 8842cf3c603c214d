[package]
name = "caplike"
version = "0.1.0"
edition = "2021"
publish = false

[dependencies]
human-sort = "=0.2.2"
regex-syntax = "=0.8.11"
camino = "=1.2.6"
clap = { version = "=4.6.7", features = ["derive"] }
env_logger = "=0.11.11"
log = "=0.4.35"
ratatui = "=0.29.0"
zip = { version = "=2.6.1", default-features = false }

[dev-dependencies]
regex = "=1.13.1"
