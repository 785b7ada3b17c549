[package]
name = "git_objects"
version = "0.1.0"
edition = "2021"
publish = false

[dependencies]
anyhow = "1"
clap = { version = "4", features = ["derive"] }
flate2 = "1"
hex = "0.4"
reqwest = { version = "0.12", features = ["blocking"] }
sha1 = "0.10"
