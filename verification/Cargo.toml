[package]
name = "monja"
version = "0.1.0"
edition = "2021"
publish = false

[dependencies]
anyhow = "*"
clap = { version = "*", features = ["derive"] }
ignore = "*"
serde = { version = "*", features = ["derive"] }
thiserror = "*"
toml = "*"
walkdir = "*"
xdg = "*"
