[package]
name = "hansen"
version = "0.1.0"
edition = "2021"
publish = false

[dependencies]
clap = "*"
csv = "*"
env_logger = "*"
log = "*"
rayon = "*"
serde = { version = "*", features = ["derive"] }
