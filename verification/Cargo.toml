[package]
name = "playground_example"
version = "0.1.0"
edition = "2021"
publish = false

[dependencies]
aomi-sdk = "*"
rand = "0.9"
schemars = "*"
serde = { version = "1", features = ["derive"] }
serde_json = "1"
