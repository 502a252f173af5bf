[package]
name = "incremental_rs"
version = "0.1.0"
edition = "2021"
publish = false

[dependencies]
ndarray = "0.16"
rand = "0.8"
thiserror = "1"
polars = { version = "*", default-features = false, features = ["lazy"] }
