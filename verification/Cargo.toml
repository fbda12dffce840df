[package]
name = "sprout"
version = "0.1.0"
edition = "2021"
publish = false

[dependencies]
basic-toml = "*"
chrono = "*"
clap = { version = "*", features = ["derive"] }
colored = "*"
dirs = "*"
gray_matter = "*"
rayon = "*"
serde = { version = "*", features = ["derive"] }
serde_json = "*"
tempfile = "*"
walkdir = "*"
