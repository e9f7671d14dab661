[package]
name = "marklign"
version = "0.3.0"
edition = "2021"
publish = false

[dependencies]
comrak = "*"
regex = "1"
ignore = "0.4"
clap = { version = "4", features = ["derive"] }
similar = "2"
