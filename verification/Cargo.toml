[package]
name = "animo"
version = "0.1.0"
edition = "2021"
publish = false

[dependencies]
uuid = "*"
serde = { version = "*", features = ["derive"] }
parity-scale-codec = { version = "*", features = ["derive"] }
