[package]
name = "galaxy-systrkr"
version = "0.1.0"
edition = "2021"
publish = false

[dependencies]
nvml-wrapper = "*"
sysinfo = "*"
tracing = "*"
tracing-subscriber = { version = "*", features = ["env-filter", "fmt"] }
