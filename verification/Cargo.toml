[package]
name = "akira"
version = "0.1.0"
edition = "2021"
publish = false

[dependencies]
regex = "1"
dashmap = "5"
tokio = { version = "1", features = ["rt-multi-thread", "macros", "sync", "time"] }
futures = "0.3"
async-stream = "0.3"
async-trait = "0.1"
derive_builder = "0.12"
cxx = "1.0"
