[package]
name = "code_upload"
version = "0.1.0"
edition = "2021"
publish = false

[dependencies]
hex = "0.4"
rustc-hex = "2"
serde = { version = "1", features = ["derive"] }
serde_json = "1"
