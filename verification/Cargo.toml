[package]
name = "morse"
version = "2.0.0"
edition = "2021"
publish = false

[dependencies]
clap = { version = "4", features = ["derive"] }
rodio = { version = "0.19", default-features = false }
