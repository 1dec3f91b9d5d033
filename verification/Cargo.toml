[package]
name = "amiss"
version = "0.1.0"
edition = "2021"
publish = false

[dependencies]
unicode-normalization = "=0.1.26"
unicode-general-category = "=1.1.0"
memchr = "2"
