[package]
name = "textrank"
version = "0.1.0"
edition = "2021"
publish = false

[dependencies]
whatlang = "*"
rust-stemmers = "*"
docx-rs = "*"
poppler-rs = "*"
