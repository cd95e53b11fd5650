[package]
name = "piet-gpu"
version = "0.1.0"
edition = "2021"
publish = false

[dependencies]
swash = "0.1"
png = "0.16"
piet = "*"
