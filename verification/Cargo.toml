[package]
name = "treepatch"
version = "0.1.0"
edition = "2021"
publish = false

[dependencies]
serde = "*"
serde_json = "*"
serde_yaml = "*"
