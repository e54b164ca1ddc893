[package]
name = "dinamika"
version = "0.1.0"
edition = "2021"
publish = false

[dependencies]
png = "0.17"
ttf-parser = "0.25"
syntect = { version = "5", default-features = false, features = ["default-syntaxes", "regex-fancy"] }
