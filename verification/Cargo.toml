[package]
name = "embedding_store"
version = "0.1.0"
edition = "2021"
publish = false

[dependencies]
godot = "*"
rusqlite = { version = "*", features = ["bundled"] }
serde = { version = "1", features = ["derive"] }
serde_json = "1"
sqlite-vec = "*"
ureq = { version = "2", features = ["json"] }
zerocopy = "0.8"
