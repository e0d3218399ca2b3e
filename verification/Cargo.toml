[package]
name = "clangastana"
version = "0.1.0"
edition = "2021"
publish = false

[dependencies]
clang = { version = "*", features = ["runtime"] }
clang-sys = { version = "*", features = ["runtime"] }
xml-rs = "0.8"
