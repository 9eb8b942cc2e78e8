[package]
name = "missingno-gamedb"
version = "0.1.0"
edition = "2021"
publish = false

[dependencies]
serde = { version = "1", features = ["derive"] }
ron = "*"
roxmltree = "*"
serde_json = "1"
clap = { version = "4", features = ["derive"] }
