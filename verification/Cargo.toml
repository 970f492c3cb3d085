[package]
name = "tort"
version = "0.1.0"
edition = "2021"
publish = false

[dependencies]
unicode-properties = "*"
miette = "*"
colored = "*"
prettydiff = "*"
rand = "*"
rustyline = "*"
clap = { version = "*", features = ["derive"] }
