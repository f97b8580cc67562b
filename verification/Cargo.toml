[package]
name = "pathtrie"
version = "0.1.0"
edition = "2021"
publish = false

[dependencies]
indenter = "0.3"
serde = { version = "1", features = ["derive"] }
thiserror = "1"
