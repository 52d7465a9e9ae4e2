[package]
name = "oxide"
version = "0.1.0"
edition = "2021"
publish = false

[dependencies]
rayon = "1"
ignore = "0.4"
tracing = "0.1"
tracing-subscriber = "0.3"
napi = { version = "2", default-features = false, features = ["napi4"] }
napi-derive = "2"
