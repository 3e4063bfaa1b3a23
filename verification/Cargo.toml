[package]
name = "git-rs"
version = "0.3.0"
edition = "2021"
publish = false

[dependencies]
sha1 = "0.10"
flate2 = "1.0"
hex = "0.4"
thiserror = "*"
anyhow = "1"
clap = { version = "4", features = ["derive"] }
serde = { version = "1", features = ["derive"] }
toml = "*"

[dev-dependencies]
tempfile = "3"
