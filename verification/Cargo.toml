[package]
name = "collatz_finder"
version = "1.0.0"
edition = "2021"
publish = false

[dependencies]
clap = "2.33"
time = "0.1"
