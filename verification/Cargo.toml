[package]
name = "parser"
version = "0.1.0"
edition = "2021"
publish = false

[dependencies]
anyhow = "1"
color-backtrace = "*"
structopt = "0.3"

[dev-dependencies]
nom = "7"
