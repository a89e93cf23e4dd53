[package]
name = "tracii"
version = "0.1.0"
edition = "2021"
publish = false

[dependencies]
rand = "*"
image = "*"
rusttype = "*"
clap = "*"
glob = "*"
tempdir = "*"
