[package]
name = "docstore"
version = "0.1.0"
edition = "2021"
publish = false

[dependencies]
serde_json = "=1.0.154"
serde = "=1.0.229"
serde_derive = "=1.0.229"
rocket = { version = "0.5", features = ["json"] }
