[package]
name = "mox"
version = "0.1.0"
edition = "2021"
publish = false

[dependencies]
anyhow = "1"
blake3 = "1"
chrono = "0.4"
clap = { version = "4", features = ["derive"] }
rusqlite = { version = "*", features = ["bundled"] }
walkdir = "2"
