[package]
name = "picorom"
version = "0.1.0"
edition = "2021"
publish = false

[dependencies]
nusb = "*"
clap = { version = "*", features = ["derive"] }
