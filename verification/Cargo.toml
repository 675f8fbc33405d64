[package]
name = "clausy"
version = "0.1.0"
edition = "2021"
publish = false

[dependencies]
clap = { version = "4", features = ["derive"] }
num = "0.4"
tempfile = "3"
wait-timeout = "0.2"
