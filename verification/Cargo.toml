[package]
name = "stack_analyser"
version = "0.1.0"
edition = "2021"
publish = false

[dependencies]
clap = "*"
object = "*"
probe-rs = "*"
serde = { version = "*", features = ["derive"] }
serde-hex = "*"
serde_json = "*"
text_io = "*"
