[package]
name = "szambo"
version = "0.1.0"
edition = "2021"
publish = false

[dependencies]
clap = { version = "*", features = ["derive"] }
grep = "*"
ignore = "*"
regex = "*"
serde_json = "*"
