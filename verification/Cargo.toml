[package]
name = "commonware_runtime"
version = "0.0.1"
edition = "2021"
publish = false

[dependencies]
prometheus-client = "0.22"
thiserror = "1"
