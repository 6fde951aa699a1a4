[package]
name = "wgc_db"
version = "0.1.0"
edition = "2021"
publish = false

[dependencies]
sqlparser = "*"
serde = { version = "1", features = ["derive"] }
serde_json = "1"
bincode = { version = "2", features = ["serde"] }
