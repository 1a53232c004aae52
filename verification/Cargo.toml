[package]
name = "obsidian_mcp"
version = "0.1.0"
edition = "2021"
publish = false

[dependencies]
regex = "1"
regex-syntax = "0.8"
yaml-rust2 = "*"
serde = { version = "1", features = ["derive"] }
serde_json = "1"
anyhow = "1"
chrono = "0.4"
walkdir = "2"
rmcp = "*"
