[package]
name = "driver"
version = "0.1.0"
edition = "2021"
publish = false

[dependencies]
url = "2"
askama_escape = "0.10"
clap = { version = "4", features = ["derive"] }
pretty = "0.12"
