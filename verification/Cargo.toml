[package]
name = "debian_copyright"
version = "0.1.0"
edition = "2021"
publish = false

[dependencies]
nom = "7"
