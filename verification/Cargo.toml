[package]
name = "reindeer"
version = "0.1.0"
edition = "2021"
publish = false

[dependencies]
sled = "*"
serde = "*"
serde_derive = "*"
serde_json = "*"
