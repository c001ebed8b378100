[package]
name = "peat"
version = "0.2.3"
edition = "2021"
publish = false

[dependencies]
console = "*"
serde = { version = "*", features = ["derive"] }
serde_json = "*"
clap = { version = "*", features = ["derive"] }
indicatif = "*"
minijinja = "*"
