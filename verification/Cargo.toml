[package]
name = "autoroute"
version = "0.1.0"
edition = "2021"
publish = false

[dependencies]
alsa = "0.9"
clap = { version = "4", features = ["derive", "cargo"] }
crossterm = "0.28"
ratatui = "0.29"
