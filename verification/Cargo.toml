[package]
name = "undo"
version = "0.1.0"
edition = "2021"
publish = false

[dependencies]
anyhow = "1"
cap-fs-ext = "*"
cap-std = "*"
chrono = "0.4"
clap = { version = "4", features = ["derive"] }
diffy = "*"
dirs = "*"
ignore = "0.4"
libc = "0.2"
rusqlite = { version = "*", features = ["bundled"] }
serde = { version = "1", features = ["derive"] }
serde_json = "1"
sha2 = "0.10"
signal-hook = "0.3"
similar = "2"
tempfile = "3"
toml = "*"
walkdir = "2"
flate2 = "1"
