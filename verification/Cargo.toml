[package]
name = "mccabre"
version = "0.1.0"
edition = "2021"
publish = false

[dependencies]
clap = { version = "*", features = ["derive"] }
ignore = "*"
owo-colors = "*"
serde = { version = "*", features = ["derive"] }
serde_json = "*"
syntect = "*"
thiserror = "*"
toml = "*"
