[package]
name = "one_brc"
version = "0.1.0"
edition = "2021"
publish = false

[dependencies]
memchr = "2"
regex = "1"
