[package]
name = "okbtree"
version = "0.1.0"
edition = "2021"
publish = false

[dependencies]
equivalent = "1"
