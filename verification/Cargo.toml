[package]
name = "yojson_rs"
version = "0.1.0"
edition = "2021"

[dependencies]
pest = "2"
serde = { version = "1", features = ["derive"] }
