[package]
name = "alt-join"
version = "0.1.0"
edition = "2021"
publish = false

[dependencies]
atomic-waker = "1"

[dev-dependencies]
futures-lite = "2"
noop-waker = "0.1"
