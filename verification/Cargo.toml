[package]
name = "countlines"
version = "0.1.0"
edition = "2021"
publish = false

[dependencies]
argh = "*"
env_logger = "*"
futures = "*"
globset = "*"
indicatif = "*"
log = "*"
rayon = "*"
serde = { version = "*", features = ["derive"] }
serde_json = "*"
tabled = "*"
thiserror = "*"
tokio = { version = "*", features = ["fs", "io-util", "rt-multi-thread"] }
walkdir = "*"
