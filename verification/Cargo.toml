[package]
name = "mis_counter"
version = "0.1.0"
edition = "2021"
publish = false

[dependencies]
dashu-int = "*"
rand = "0.9"
chrono = "0.4"
serde = { version = "1", features = ["derive"] }
serde_json = "1"
