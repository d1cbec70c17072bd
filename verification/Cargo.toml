[package]
name = "mcfunction-debugger"
version = "0.1.0"
edition = "2021"
publish = false

[dependencies]
minect = "*"
serde = { version = "1", features = ["derive"] }
serde_json = "1"
clap = { version = "4", features = ["derive"] }
walkdir = "2"
log = "0.4"
simple_logger = "*"
