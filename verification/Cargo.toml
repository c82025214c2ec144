[package]
name = "dovecount"
version = "0.1.0"
edition = "2021"
publish = false

[dependencies]
itertools = "=0.15.0"
tokyodoves = { version = "=1.0.2", features = ["analysis"] }
