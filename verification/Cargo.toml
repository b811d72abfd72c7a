[package]
name = "anomaly_scan"
version = "0.1.0"
edition = "2021"
publish = false

[dependencies]
anyhow = "1"
memmap = "0.7"
rayon = "1"
