[package]
name = "lunacy_tints"
version = "0.1.0"
edition = "2021"
publish = false

[dependencies]
uuid = { version = "1", features = ["v4"] }
base64 = "0.22"
json = "0.12"
tempdir = "0.3"
zip-extensions = "*"
clap = { version = "4", features = ["cargo"] }
