[package]
name = "weighted_matching_benchmark"
version = "0.1.0"
edition = "2021"
publish = false

[dependencies]
geometric-traits = { version = "=0.2.3", default-features = false }
num-traits = "=0.2.19"
