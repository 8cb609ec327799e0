[package]
name = "dragonfly_bench"
version = "0.1.0"
edition = "2021"
publish = false

[dependencies]
anyhow = "1"
chrono = "0.4"
clap = { version = "4", features = ["derive"] }
duct = "*"
rand = "0.8"
redis = "*"
serde = { version = "1", features = ["derive"] }
serde_json = "1"
tabled = "*"
toml = "*"
