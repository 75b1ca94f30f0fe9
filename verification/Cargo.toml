[package]
name = "iso_library"
version = "0.1.8"
edition = "2021"
publish = false

[dependencies]
log = "0.4"
reqwest = { version = "0.13", default-features = false, features = ["json", "query"] }
rusqlite = { version = "=0.39.0", features = ["bundled"] }
serde = { version = "1", features = ["derive"] }
serde_json = "1"
strsim = "=0.11.1"
thiserror = "2"
tokio = { version = "1", features = ["time"] }
walkdir = "2.5"

[dev-dependencies]
regex-lite = "=0.1.9"
