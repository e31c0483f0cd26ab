[package]
name = "suggestions"
version = "0.1.0"
edition = "2021"
publish = false

[dependencies]
similar = "*"
colored = "*"
clap = { version = "*", features = ["derive"] }
