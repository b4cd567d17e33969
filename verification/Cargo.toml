[package]
name = "stow_slots"
version = "0.1.0"
edition = "2021"
publish = false

[dependencies]
csv = "1.3"
dirs = "5.0"
serde = { version = "1.0", features = ["derive"] }
toml = "0.8"
