[package]
name = "metadata2sqlite"
version = "0.1.0"
edition = "2021"
publish = false

[dependencies]
anyhow = "1"
clap = { version = "3", features = ["derive"] }
glob = "0.3"
rusqlite = "*"
serde = { version = "1", features = ["derive"] }
serde_json = "1"
serde_with = "*"
