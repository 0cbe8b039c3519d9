[package]
name = "pdf_clean_margins"
version = "0.1.0"
edition = "2021"
publish = false

[dependencies]
clap = "*"
lopdf = "*"
unicode-properties = "*"
