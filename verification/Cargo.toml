[package]
name = "y2aa"
version = "0.1.0"
edition = "2021"
publish = false

[dependencies]
docopt = "*"
freetype-rs = "*"
libc = "*"
serde = { version = "*", features = ["derive"] }
