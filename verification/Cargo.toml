[package]
name = "nethop"
version = "0.1.0"
edition = "2021"
publish = false

[dependencies]
anyhow = "1"
clap = { version = "4", features = ["derive"] }
socket2 = { version = "0.5", features = ["all"] }
