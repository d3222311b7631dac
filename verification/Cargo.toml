[package]
name = "installer"
version = "0.1.0"
edition = "2021"
publish = false

[dependencies]
rand = "0.8"
gptman = "*"
libc = "*"
serde = { version = "1", features = ["derive"] }
serde_json = "1"
tempfile = "*"
