[package]
name = "st3"
version = "0.4.1"
edition = "2021"
publish = false

[dependencies]
cache-padded = "=1.2.0"
