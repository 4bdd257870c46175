[package]
name = "cargonauts-cli"
version = "0.1.0"
edition = "2021"
publish = false

[dependencies]
heck = "0.3"
docopt = "0.7"
rustc-serialize = "0.3"
