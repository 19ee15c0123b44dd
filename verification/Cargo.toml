[package]
name = "cfg_parser"
version = "0.1.0"
edition = "2021"
publish = false

[dependencies]
thiserror = "1"
