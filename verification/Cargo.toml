[package]
name = "dl85"
version = "0.1.0"
edition = "2021"
publish = false

[dependencies]
bit-vec = "0.6"
clap = { version = "3", features = ["derive"] }
clokwerk = "0.4"
float-cmp = "0.9"
serde = { version = "1", features = ["derive"] }
serde_json = "1"
