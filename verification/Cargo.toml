[package]
name = "iron_pony"
version = "0.1.0"
edition = "2021"
publish = false

[dependencies]
unicode-width = "*"
rand = "*"
clap = { version = "*", features = ["derive"] }
walkdir = "*"
serde = { version = "*", features = ["derive"] }
serde_json = "*"
serde_yaml = "*"
anyhow = "*"
tempfile = "*"
thiserror = "*"
tracing = "*"
tracing-subscriber = { version = "*", features = ["env-filter"] }
