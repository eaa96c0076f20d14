[package]
name = "engrym"
version = "0.3.1"
edition = "2021"
publish = false

[dependencies]
anyhow = "=1.0.104"
clap = { version = "=4.6.7", features = ["derive"] }
fastembed = { version = "=5.17.4", default-features = false, features = ["hf-hub-rustls-tls"] }
libc = "=0.2.191"
pulldown-cmark = { version = "=0.12.2", default-features = false, features = ["html"] }
regex = "=1.13.1"
rusqlite = { version = "=0.32.1", features = ["bundled"] }
serde = { version = "=1.0.229", features = ["derive"] }
serde_json = "=1.0.154"
serde_yaml = "=0.9.34"
sha2 = "=0.10.9"
tiny_http = "=0.12.0"
toml = "=0.8.23"
walkdir = "=2.5.0"
