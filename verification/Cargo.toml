[package]
name = "dotbak"
version = "0.1.0"
edition = "2021"
publish = false

[dependencies]
globset = "*"
clap = { version = "*", features = ["derive"] }
serde = { version = "*", features = ["derive"] }
toml = "*"
dirs = "*"
