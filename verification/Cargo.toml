[package]
name = "synthetic_core"
version = "0.1.0"
edition = "2021"
publish = false

[dependencies]
h3o = "*"
serde = { version = "1", features = ["derive"] }
thiserror = "*"
