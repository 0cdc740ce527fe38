[package]
name = "hokg"
version = "0.1.0"
edition = "2021"
publish = false

[dependencies]
num-bigint-dig = "0.8"
num-traits = "0.2"
rand = "0.9"
