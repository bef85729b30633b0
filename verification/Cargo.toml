[package]
name = "tpipe"
version = "0.1.0"
edition = "2021"
publish = false

[dependencies]
csv = "*"
serde_json = "*"
clap = { version = "*", features = ["derive"] }
crossterm = "*"
dirs = "*"
