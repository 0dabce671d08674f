[package]
name = "harbor"
version = "0.1.0"
edition = "2021"
publish = false

[dependencies]
globset = "0.4"
notify = "*"
serde = { version = "1", features = ["derive"] }
toml = "*"
