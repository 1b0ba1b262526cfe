[package]
name = "php_injector"
version = "0.1.0"
edition = "2021"
publish = false

[dependencies]
serde = { version = "*", features = ["derive"] }
serde_json = "*"
walkdir = "*"
notify = "4.0"
