[package]
name = "keyvault"
version = "0.1.0"
edition = "2021"
publish = false

[dependencies]
hex = "*"
ink = { version = "*", features = ["std"] }
parity-scale-codec = { version = "*", features = ["derive"] }
scale-info = { version = "*", features = ["derive"] }
