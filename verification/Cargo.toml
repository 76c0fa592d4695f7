[package]
name = "perg"
version = "0.1.0"
edition = "2021"
publish = false

[dependencies]
clap = "4"
jwalk = "0.8"
