[package]
name = "search_core"
version = "0.1.0"
edition = "2021"
publish = false

[dependencies]
xorf = "*"
serde = { version = "*", features = ["derive"] }
serde_json = "*"
