[package]
name = "findupdate"
version = "0.1.0"
edition = "2021"
publish = false

[dependencies]
aho-corasick = "1"
anyhow = "1"
clap = "4"
env_logger = "0.11"
log = "0.4"
owo-colors = "4"
rayon = "1"
regex = "1"
reqwest = { version = "0.12", default-features = false, features = ["blocking"] }
serde = { version = "1", features = ["derive"] }
serde_json = "1"
toml = "0.8"
version-compare = "0.2"
walkdir = "2"

[dev-dependencies]
winnow = "0.6"
