[package]
name = "set_span"
version = "0.1.0"
edition = "2021"

[dependencies]
proc-macro-tool = "*"
