[package]
name = "ddh"
version = "0.1.0"
edition = "2021"
publish = false

[dependencies]
clap = "3"
rayon = "*"
serde = { version = "*", features = ["derive"] }
serde_json = "*"
siphasher = "*"
