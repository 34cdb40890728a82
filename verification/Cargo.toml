[package]
name = "bitcoin_script"
version = "0.1.0"
edition = "2021"
publish = false

[dependencies]
bitcoin = "0.32"
hex = "0.4"
proc-macro2 = "1"
quote = "1"
serde = { version = "1", features = ["derive"] }
