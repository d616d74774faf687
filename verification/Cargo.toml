[package]
name = "ab_reflect"
version = "0.1.0"
edition = "2021"
publish = false

[dependencies]
clap = { version = "4", features = ["derive"] }
tracing = "0.1"
