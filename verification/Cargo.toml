[package]
name = "featrs"
version = "0.4.0"
edition = "2021"
publish = false

[dependencies]
polars = { version = "*", features = ["dtype-date", "dtype-datetime", "temporal"] }
regex = "*"
statrs = "*"

[dev-dependencies]
approx = "*"
