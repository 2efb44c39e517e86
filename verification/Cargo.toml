[package]
name = "rvllm_bidirectional"
version = "0.1.0"
edition = "2021"
publish = false

[dependencies]
half = "2"
tracing = "0.1"
