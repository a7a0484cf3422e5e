[package]
name = "qasmfmt"
version = "0.1.0"
edition = "2021"
publish = false

[dependencies]
anyhow = "*"
clap = { version = "*", features = ["derive"] }
oq3_syntax = "*"
walkdir = "*"
