[package]
name = "moq_origin"
version = "0.1.0"
edition = "2021"
publish = false

[dependencies]
bytes = "=1.12.1"
rand = "=0.10.3"
tracing = "=0.1.44"
web-async = "=0.1.5"
