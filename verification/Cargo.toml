[package]
name = "stmt_cache"
version = "0.1.0"
edition = "2021"
publish = false

[dependencies]
tokio-postgres = "0.7"
deadpool = "*"
