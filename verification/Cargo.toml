[package]
name = "tokenize_dir"
version = "0.1.0"
edition = "2021"
publish = false

[dependencies]
anyhow = "1"
proc-macro2 = "1"
quote = "1"
regex = "1"
syn = "2"
