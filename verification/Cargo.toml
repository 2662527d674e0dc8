[package]
name = "cxline"
version = "0.1.0"
edition = "2021"
publish = false

[dependencies]
colored = "2"
dirs = "5"
notify = "6"
serde = { version = "1", features = ["derive"] }
serde_json = "1"
terminal_size = "0.4"
toml = "0.8"
