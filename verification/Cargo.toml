[package]
name = "cdf_header"
version = "0.1.0"
edition = "2021"
publish = false

[dependencies]
byteorder = "1"
serde = { version = "1", features = ["derive"] }
serde_derive = "1"
serde_json = "1"
