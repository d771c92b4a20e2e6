[package]
name = "cryptorun"
version = "0.1.0"
edition = "2021"
publish = false

[dependencies]
reqwest = { version = "*", default-features = false, features = ["blocking"] }
ron = "*"
serde = { version = "1", features = ["derive"] }
