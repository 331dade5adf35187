[package]
name = "version_chain"
version = "0.1.0"
edition = "2021"
publish = false

[dependencies]
emver = "0.1"
