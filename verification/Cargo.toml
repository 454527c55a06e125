[package]
name = "dns_client"
version = "0.1.0"
edition = "2021"
publish = false

[dependencies]
clap = { version = "3", features = ["derive"] }
rand = "0.8"
