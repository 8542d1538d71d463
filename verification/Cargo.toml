[package]
name = "scope_engine"
version = "0.1.0"
edition = "2021"
publish = false

[dependencies]
serde_json = "1"
tl = "0.7"
axum = "0.7"
tokio = { version = "1", features = ["full"] }
reqwest = { version = "0.12", default-features = false, features = ["blocking", "json"] }
rusqlite = { version = "0.31", features = ["bundled"] }
