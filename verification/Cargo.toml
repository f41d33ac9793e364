[package]
name = "markstore"
version = "0.1.0"
edition = "2021"
publish = false

[dependencies]
anyhow = "1"
chrono = "0.4"
clap = { version = "4", features = ["derive"] }
dirs = "5"
glob = "0.3"
hex = "0.4"
notify = "6"
regex = "1"
rusqlite = { version = "0.31", features = ["bundled"] }
serde = { version = "1", features = ["derive"] }
serde_json = "1"
serde_yaml = "0.9"
sha2 = "0.10"
tantivy = "0.22"
thiserror = "1"
ureq = { version = "2", features = ["json"] }
