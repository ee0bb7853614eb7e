[package]
name = "mergedb"
version = "0.1.0"
edition = "2021"
publish = false

[dependencies]
anyhow = "*"
clap = { version = "*", features = ["derive"] }
colored = "*"
figlet-rs = "*"
rand = { version = "0.9", features = ["small_rng"] }
serde = { version = "*", features = ["derive"] }
serde_json = "*"
toml = "*"
