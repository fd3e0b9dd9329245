[package]
name = "xvgplot"
version = "0.1.0"
edition = "2021"
publish = false

[dependencies]
lexopt = "*"
terminal_size = "*"
