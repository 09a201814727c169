[package]
name = "eolify"
version = "0.1.0"
edition = "2021"
publish = false

[dependencies]
memchr = "2"
futures-io = "0.3"
tokio = { version = "1", default-features = false }
pin-project-lite = "0.2"
