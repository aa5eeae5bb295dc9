[package]
name = "yz_string_utils"
version = "0.1.0"
edition = "2021"
publish = false

[dependencies]
unicode-ident = "*"
unicode-normalization = "*"
