[package]
name = "wbt"
version = "0.1.0"
edition = "2021"
publish = false

[dependencies]
sha2 = "0.10"
serde = { version = "1", features = ["derive"] }
serde_json = "1"
reqwest = { version = "0.12", default-features = false, features = ["blocking"] }
log = "0.4"
env_logger = "0.11"
rayon = "1"
clap = "4"
