[package]
name = "oslab"
version = "0.1.0"
edition = "2021"
publish = false

[dependencies]
xmas-elf = "*"
clap = { version = "4", features = ["derive"] }
rand = "0.8"
