[package]
name = "speedate"
version = "0.1.0"
edition = "2021"
publish = false

[dependencies]
lexical-parse-float = "0.8"

[dev-dependencies]
chrono = "0.4"
