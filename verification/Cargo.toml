[package]
name = "image_analysis"
version = "0.1.0"
edition = "2021"
publish = false

[dependencies]
image = "*"
serde = { version = "*", features = ["derive"] }
ethabi = "*"
hex-literal = "*"
