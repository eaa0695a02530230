[package]
name = "window_layout"
version = "0.1.0"
edition = "2021"
publish = false

[dependencies]
accessibility-sys = "*"
anyhow = "1"
clap = { version = "4", features = ["derive"] }
cocoa = "*"
cocoa-foundation = "*"
core-foundation = "*"
core-foundation-sys = "*"
core-graphics = "*"
core-graphics-types = "*"
log = "0.4"
log4rs = "1"
objc = "0.2"
regex = "1"
serde = { version = "1", features = ["derive"] }
serde_yaml = "0.9"
