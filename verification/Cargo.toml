[package]
name = "rustbusters_client"
version = "0.1.0"
edition = "2021"
publish = false

[dependencies]
petgraph = "*"
crossbeam-channel = "*"
serde_json = "*"
rand = "*"
chrono = "*"
