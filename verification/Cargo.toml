[package]
name = "fast_tracer"
version = "0.1.0"
edition = "2021"
publish = false

[dependencies]
itertools = "0.10"
lazy_static = "1"
rand = "0.8"
tracing = { version = "0.1", default-features = false, features = ["std"] }
