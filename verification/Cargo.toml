[package]
name = "stegano"
version = "0.1.0"
edition = "2021"
publish = false

[dependencies]
png = "0.17"
const_format = "0.2"
