[package]
name = "little-weirdo-filesystem"
version = "0.1.0"
edition = "2021"
publish = false

[dependencies]
embedded-storage = "0.3"
