[package]
name = "greentext_epub"
version = "0.1.0"
edition = "2021"
publish = false

[dependencies]
clap = { version = "*", features = ["derive"] }
console = "*"
epub-builder = "*"
html-escape = "*"
humantime = "*"
imagesize = "*"
indicatif = "*"
log = "*"
