[package]
name = "froodi"
version = "0.1.0"
edition = "2021"
publish = false

[dependencies]
anyhow = "1"
thiserror = "2"
parking_lot = "0.12"
tracing = "0.1"
linkme = "0.3"
