[package]
name = "html_parser"
version = "0.1.0"
edition = "2021"
publish = false

[dependencies]
html-escape = "0.2"
ownable = "*"
serde = { version = "1", features = ["derive"] }
serde_json = "1"
