[package]
name = "oscore"
version = "0.1.0"
edition = "2021"
publish = false

[dependencies]
clap = "2"

[dev-dependencies]
rand = "0.8"
