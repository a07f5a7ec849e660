[package]
name = "ddk_core"
version = "0.1.0"
edition = "2021"
publish = false

[dependencies]
anyhow = "*"
dirs = "*"
fslock = "*"
ron = "*"
roxmltree = "*"
serde = { version = "*", features = ["derive"] }
serde_json = "*"
