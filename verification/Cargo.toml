[package]
name = "fon"
version = "0.1.0"
edition = "2021"
publish = false

[dependencies]
atoi = "2"
memchr = "2"
rayon = "1"
