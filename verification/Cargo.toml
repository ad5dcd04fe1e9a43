[package]
name = "paclog"
version = "0.1.0"
edition = "2021"
publish = false

[dependencies]
clap = { version = "*", features = ["derive"] }
simpleio = "*"
term_size = "*"
vec-string = "*"
zen-colour = "*"
