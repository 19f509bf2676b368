[package]
name = "editor_core"
version = "0.1.0"
edition = "2021"
publish = false

[dependencies]
ropey = "1"
sha2 = "0.10"
serde = { version = "1", features = ["derive"] }
serde_json = "1"
toml = "*"
chrono = "0.4"
dirs = "*"
git2 = { version = "*", default-features = false }
arboard = { version = "*", default-features = false }
once_cell = "1"
parking_lot = "0.12"
