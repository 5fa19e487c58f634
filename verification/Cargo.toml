[package]
name = "helix_workspace"
version = "0.1.0"
edition = "2021"
publish = false

[dependencies]
toml = "0.9"
indexmap = "2"
unicode-width = "=0.1.12"
serde = { version = "1", features = ["derive"] }
etcetera = "0.10"
once_cell = "1"
parking_lot = "0.12"
anyhow = "1"
log = "0.4"
