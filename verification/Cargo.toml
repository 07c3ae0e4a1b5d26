[package]
name = "pngfier"
version = "0.1.0"
edition = "2021"
publish = false

[dependencies]
bitstream-io = "2"
anyhow = "1"
clap = { version = "4", features = ["derive"] }
