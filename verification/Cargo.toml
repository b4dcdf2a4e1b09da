[package]
name = "crpg-core"
version = "0.1.0"
edition = "2021"
publish = false

[dependencies]
indexmap = "2"
serde = { version = "1", features = ["derive"] }
thiserror = "2"

[dev-dependencies]
serde_json = "1"
