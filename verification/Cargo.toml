[package]
name = "aat"
version = "0.1.0"
edition = "2021"
publish = false

[dependencies]
chrono = "0.4"
serde = { version = "1", features = ["derive"] }
serde_json = "1"
num = "0.4"

[dev-dependencies]
rand = "0.8"
