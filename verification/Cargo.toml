[package]
name = "docfmt"
version = "0.1.0"
edition = "2021"
publish = false

[dependencies]
clap = "*"
handlebars = "*"
log = "*"
serde = { version = "*", features = ["derive"] }
serde_json = "*"
thiserror = "*"
toml = "*"
walkdir = "*"
