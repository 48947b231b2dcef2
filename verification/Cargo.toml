[package]
name = "qp_rs"
version = "0.1.0"
edition = "2021"
publish = false

[dependencies]
aes = "0.8"
cmac = "0.7"
spin = "0.9"
portable-atomic = "1"
serde = { version = "1", features = ["derive"] }
