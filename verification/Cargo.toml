[package]
name = "rit"
version = "0.1.0"
edition = "2021"
publish = false

[dependencies]
anyhow = "*"
chrono = "*"
clap = { version = "*", features = ["derive"] }
colored = "*"
git2 = { version = "*", default-features = false }
ignore = "*"
walkdir = "*"
