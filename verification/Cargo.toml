[package]
name = "rust_multipart"
version = "0.1.0"
edition = "2021"
publish = false

[dependencies]
getrandom = "0.3"
memchr = "2"
pyo3 = "0.22"
