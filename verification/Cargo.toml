[package]
name = "sled_nav"
version = "0.1.0"
edition = "2021"
publish = false

[dependencies]
anyhow = "*"
clap = { version = "*", features = ["derive"] }
crossterm = "*"
ctrlc = "*"
indicatif = "*"
ratatui = "*"
ron = "*"
serde = { version = "*", features = ["derive"] }
serde_json = "*"
serde_yaml = "*"
sled = "*"
toml = "*"
