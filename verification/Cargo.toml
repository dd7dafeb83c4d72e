[package]
name = "tmpl"
version = "0.1.0"
edition = "2021"
publish = false

[dependencies]
clap = { version = "*", features = ["derive"] }
eyre = "*"
handlebars = "*"
serde = { version = "*", features = ["derive"] }
serde_json = "*"
serde_yaml = "*"
walkdir = "*"
