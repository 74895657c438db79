[package]
name = "fcn"
version = "0.1.0"
edition = "2021"
publish = false

[dependencies]
commonware-cryptography = "*"

[dev-dependencies]
commonware-codec = "*"
bytes = "*"
