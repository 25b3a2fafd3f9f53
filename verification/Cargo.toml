[package]
name = "pos-core"
version = "0.1.0"
edition = "2021"
publish = false

[dependencies]
bs58 = "0.5"
urlencoding = "2"
serde = { version = "1", features = ["derive"] }
serde_json = "1"
