[package]
name = "resizer"
version = "1.0.1"
edition = "2021"
publish = false

[dependencies]
clap = { version = "4.5", features = ["derive"] }
serde = { version = "1", features = ["derive"] }
serde_json = "1"
tiny_http = "0.12"
