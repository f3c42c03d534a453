[package]
name = "thrml"
version = "0.1.3"
edition = "2021"
publish = false

[dependencies]
indexmap = "=2.14.2"
itertools = "=0.14.0"
rand = "0.9"
