[package]
name = "micrograd_rs"
version = "0.1.0"
edition = "2021"
publish = false

[dependencies]
num = "0.4"
rand = "0.8"
parquet = { version = "*", default-features = false }
pprof = { version = "*", features = ["flamegraph"] }
