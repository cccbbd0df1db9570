[package]
name = "slipmux"
version = "0.1.0"
edition = "2021"
publish = false

[dependencies]
serial-line-ip = "*"

[dev-dependencies]
coap-lite = "*"
