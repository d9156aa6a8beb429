[package]
name = "chunked_idx_table"
version = "0.1.0"
edition = "2021"
publish = false

[dependencies]
polars-utils = "=0.46.0"
polars-arrow = "=0.46.0"
