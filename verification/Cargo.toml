[package]
name = "vizia_style"
version = "0.1.0"
edition = "2021"
publish = false

[dependencies]
morphorm = "=0.6.5"
