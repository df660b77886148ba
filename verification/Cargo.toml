[package]
name = "rustask"
version = "0.9.0"
edition = "2021"
publish = false

[dependencies]
chrono = "0.4"
rand = "0.8"
clap = "2"
color-eyre = "0.6"
colored = "2"
