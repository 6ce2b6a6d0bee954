[package]
name = "qwt"
version = "0.1.0"
edition = "2021"
publish = false

[dependencies]
minimum_redundancy = "*"
serde = { version = "1", features = ["derive"] }

[dev-dependencies]
rand = "*"
