[package]
name = "gimark"
version = "0.1.0"
edition = "2021"
publish = false

[dependencies]
git2 = { version = "=0.21.0", features = ["https"] }
serde = { version = "=1.0.229", features = ["derive"] }
serde_json = "=1.0.154"
