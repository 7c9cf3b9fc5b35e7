[package]
name = "jesd84"
version = "0.1.0"
edition = "2021"
publish = false

[dependencies]
clap = { version = "4", features = ["derive"] }
prettytable-rs = "0.10"
serde = { version = "1", features = ["derive"] }
serde_json = "1"
json = "0.12"
