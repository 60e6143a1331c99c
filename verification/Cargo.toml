[package]
name = "os_sim"
version = "0.1.0"
edition = "2021"
publish = false

[dependencies]
rand = "0.8"
statistical = "1.0"
num-format = "0.4"
dialoguer = "0.11"
