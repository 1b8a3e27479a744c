[package]
name = "arthas"
version = "0.1.0"
edition = "2021"
publish = false

[dependencies]
objectid = "=0.2.0"

[dev-dependencies]
rand = "=0.8.8"
