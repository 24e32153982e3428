[package]
name = "platform"
version = "0.1.0"
edition = "2021"
publish = false

[dependencies]
num_cpus = "1"
