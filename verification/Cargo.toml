[package]
name = "mdbook_preprocessor_utils"
version = "0.1.0"
edition = "2021"
publish = false

[dependencies]
html-escape = "*"
rayon = "*"
mdbook = { version = "=0.4.52", default-features = false }
anyhow = "*"
clap = { version = "*", features = ["derive"] }
env_logger = "*"
log = "*"
chrono = "*"
semver = "*"
serde = { version = "*", features = ["derive"] }
serde_json = "*"
tempfile = "*"
