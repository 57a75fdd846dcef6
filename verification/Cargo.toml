[package]
name = "vecexp"
version = "0.1.0"
edition = "2021"
publish = false

[dependencies]
linked-hash-map = "0.5"
filebuffer = "1"
clap = "2"
