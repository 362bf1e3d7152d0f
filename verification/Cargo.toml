[package]
name = "tubes"
version = "0.1.0"
edition = "2021"
publish = false

[dependencies]
hex = "*"
clap = { version = "*", features = ["derive"] }
colored = "*"
image = "*"
imageproc = "*"
serde = { version = "*", features = ["derive"] }
serde_derive = "*"
toml = "*"
