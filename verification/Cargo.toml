[package]
name = "benchmark"
version = "0.1.0"
edition = "2021"
publish = false

[dependencies]
rand = "*"
scoped_threadpool = "*"
