[package]
name = "grepdown"
version = "0.1.0"
edition = "2021"
publish = false

[dependencies]
pulldown-cmark = { version = "*", default-features = false }
blake3 = "1"
serde_yaml = "0.9"
rusqlite = { version = "*", features = ["bundled"] }
ignore = "*"
rayon = "*"
walkdir = "*"
clap = { version = "4", features = ["derive"] }
serde = { version = "1", features = ["derive"] }
serde_json = "1"
schemars = "*"
rmcp = { version = "*", features = ["server", "macros", "transport-io"] }
tokio = { version = "1", features = ["rt", "macros", "io-std", "sync", "time"] }
notify = "*"
anyhow = "1"
thiserror = "*"
log = "0.4"
env_logger = "*"
