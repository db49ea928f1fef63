[package]
name = "tracing_filter"
version = "0.1.0"
edition = "2021"
publish = false

[dependencies]
matchers = "0.1"
tracing = "0.1"
tracing-core = "0.1"
tracing-subscriber = "0.3"
