[package]
name = "op_log"
version = "0.1.0"
edition = "2021"
publish = false

[dependencies]
blake2 = "*"
clap = { version = "*", features = ["derive"] }
