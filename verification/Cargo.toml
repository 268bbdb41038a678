[package]
name = "add_bot"
version = "0.12.1"
edition = "2021"
publish = false

[dependencies]
anyhow = "1"
chrono = "0.4"
chrono-tz = "0.8"
clap = { version = "4", features = ["derive"] }
config = "0.13"
lazy_static = "1.4"
pretty_env_logger = "0.5"
regex = "1"
serde = { version = "1", features = ["derive"] }
takecell = "=0.1.1"
teloxide = "0.12"
tokio = { version = "1", features = ["fs", "macros", "rt-multi-thread", "sync", "time"] }
