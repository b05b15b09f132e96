[package]
name = "charfreq"
version = "0.1.0"
edition = "2021"
publish = false

[dependencies]
itertools = "*"
clap = { version = "*", features = ["derive"] }
