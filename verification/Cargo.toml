[package]
name = "fatescroll"
version = "0.1.0"
edition = "2021"
publish = false

[dependencies]
regex = "1"
serde = { version = "1", features = ["derive"] }
serde_json = "1"
serde_yaml = "0.9"
thiserror = "*"
clap = { version = "4", features = ["derive"] }
wasm-bindgen = "0.2"
