[package]
name = "delta"
version = "0.1.0"
edition = "2021"
publish = false

[dependencies]
syntect = { version = "*", default-features = false, features = ["default-fancy"] }
ansi_term = "*"
atty = "*"
structopt = "*"
