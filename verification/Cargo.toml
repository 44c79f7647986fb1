[package]
name = "playground"
version = "0.1.0"
edition = "2021"
publish = false

[dependencies]
utf8reader = "*"
regex = "1"
unicode-width = "0.1"
ansi_term = "0.12"
chrono = "0.4"
clap = "2"
