[package]
name = "redif"
version = "0.1.0"
edition = "2021"
publish = false

[dependencies]
amy = "*"
log = "*"
