[package]
name = "rooted"
version = "0.1.0"
edition = "2021"
publish = false

[dependencies]
regex = "1"
sha2 = "0.10"
serde = { version = "1", features = ["derive"] }
serde_json = "1"
rusqlite = "0.32"
dirs = "5"
reqwest = { version = "0.12", features = ["json"] }
