[package]
name = "tracing-assertions"
version = "0.1.0"
edition = "2021"
publish = false

[dependencies]
ansi_term = "0.12"
regex = "1"
tracing = "0.1"
tracing-subscriber = "0.3"
