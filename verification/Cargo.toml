[package]
name = "rust_shell"
version = "0.1.0"
edition = "2021"
publish = false

[dependencies]
pathsearch = "0.2"
rustyline = "5"
