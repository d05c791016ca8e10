[package]
name = "uwhat"
version = "0.2.0"
edition = "2021"
publish = false

[dependencies]
clap = { version = "4", features = ["derive"] }
owo-colors = "4"
serde_json = "1"
