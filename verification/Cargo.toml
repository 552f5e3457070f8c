[package]
name = "aether"
version = "0.1.0"
edition = "2021"
publish = false

[dependencies]
rand = "0.8"
serde = { version = "1", features = ["derive"] }
bincode = "1"
rusqlite = { version = "0.31", features = ["bundled"] }
dirs = "5"
macroquad = "0.4"
