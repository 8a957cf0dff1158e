[package]
name = "sfv"
version = "0.1.0"
edition = "2021"
publish = false

[dependencies]
data-encoding = "*"
rust_decimal = "*"
