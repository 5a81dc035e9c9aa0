[package]
name = "my_zoo"
version = "0.1.0"
edition = "2021"
publish = false

[dependencies]
clap = "2"
serde = { version = "1", features = ["derive"] }
serde_json = "1"
