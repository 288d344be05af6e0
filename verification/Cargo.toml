[package]
name = "tracing_log_sample"
version = "0.1.0"
edition = "2021"
publish = false

[dependencies]
fastrand = "*"
thread_local = "*"
tracing = "*"
tracing-subscriber = { version = "*", features = ["env-filter"] }
