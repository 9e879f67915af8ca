[package]
name = "content_store"
version = "0.1.0"
edition = "2021"
publish = false

[dependencies]
blake2-rfc = "*"
rand = "*"
