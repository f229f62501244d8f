[package]
name = "markymark_index"
version = "0.1.0"
edition = "2021"
publish = false

[dependencies]
lasso = "*"
petgraph = "*"
serde_json = "*"
