[package]
name = "scene_core"
version = "0.1.0"
edition = "2021"
publish = false

[dependencies]
indexmap = "*"
uuid = { version = "*", features = ["v4"] }
serde = { version = "*", features = ["derive"] }
serde_json = "*"
