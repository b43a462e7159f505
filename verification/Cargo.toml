[package]
name = "pareidolia"
version = "0.1.0"
edition = "2021"
publish = false

[dependencies]
getopts = "*"
image = { version = "*", default-features = false, features = ["png"] }
