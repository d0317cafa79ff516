[package]
name = "hellofs"
version = "0.1.0"
edition = "2021"
publish = false

[dependencies]
anyhow = "1"
futures = "0.3"
libc = "0.2"
polyfuse = "0.3"
polyfuse-tokio = "0.2"
tracing-subscriber = "*"
