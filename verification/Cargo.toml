[package]
name = "gridsolver"
version = "0.1.0"
edition = "2021"
publish = false

[dependencies]
unidecode = "*"
rand = "*"
clap = "*"
