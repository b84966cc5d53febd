[package]
name = "bundle"
version = "0.1.0"
edition = "2021"
publish = false

[dependencies]
lz4_flex = "=0.14.0"
