[package]
name = "async-utf8-decoder"
version = "1.0.0"
edition = "2021"
publish = false

[dependencies]
futures-core = "0.3"
futures-io = "0.3"
pin-project-lite = "0.2"
thiserror = "1"
