[package]
name = "lush"
version = "0.1.0"
edition = "2021"

[dependencies]
rustyline = { version = "17", features = ["derive"] }
