[package]
name = "flamescope"
version = "0.1.0"
edition = "2021"
publish = false

[dependencies]
flame = "0.2"
indexmap = "2"
serde = { version = "1", features = ["derive"] }
serde_json = "1"
