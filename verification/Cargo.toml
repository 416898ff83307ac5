[package]
name = "tag-guard"
version = "0.1.0"
edition = "2021"
publish = false

[dependencies]
easy_strings = "*"
serde = { version = "1", features = ["derive"] }
str-macro = "*"
