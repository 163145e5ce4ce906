[package]
name = "redpen"
version = "0.1.0"
edition = "2021"
publish = false

[dependencies]
annotate-snippets = "0.12"
indexmap = "2"
