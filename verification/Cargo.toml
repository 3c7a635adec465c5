[package]
name = "isbn2"
version = "0.1.0"
edition = "2021"
publish = false

[dependencies]
arrayvec = "=0.7.8"
indexmap = "=1.9.3"
quick-xml = "=0.22.0"
