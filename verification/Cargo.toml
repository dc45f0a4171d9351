[package]
name = "ar_mintin"
version = "0.1.0"
edition = "2021"
publish = false

[dependencies]
rand = "0.8"
clap = { version = "3", features = ["derive"] }
crossterm = "*"
ctrlc = "3"
json = "0.12"
serde = { version = "1", features = ["derive"] }
serde_json = "1"
