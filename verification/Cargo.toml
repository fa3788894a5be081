[package]
name = "data_aggregator"
version = "0.1.0"
edition = "2021"
publish = false

[dependencies]
anyhow = "1"
clap = { version = "3", features = ["derive"] }
sysinfo = "0.25"
tokio = { version = "1", features = ["full"] }
