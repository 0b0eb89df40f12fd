[package]
name = "init_explorer"
version = "0.1.0"
edition = "2021"
publish = false

[dependencies]
dvcdbg = "*"
embedded-hal = "0.2"
nb = "1"
