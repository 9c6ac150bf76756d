[package]
name = "plhistr"
version = "0.1.0"
edition = "2021"
publish = false

[dependencies]
atty = "0.2"
clap = { version = "4", features = ["derive"] }
colored = "2"
csv = "1"
indicatif = "0.17"
