[package]
name = "engine"
version = "0.1.0"
edition = "2021"
publish = false

[dependencies]
toml = "*"
comrak = { version = "*", features = ["syntect"] }
syntect = { version = "*", default-features = false, features = ["default-fancy"] }
upon = "*"
serde = { version = "*", features = ["derive"] }
