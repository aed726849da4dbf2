[package]
name = "dns2tor"
version = "0.1.0"
edition = "2021"
publish = false

[dependencies]
anyhow = "1"
chrono = "0.4"
clap = { version = "4", features = ["derive"] }
dashmap = "5"
rand = "0.8"
tokio = { version = "1", features = ["rt-multi-thread", "macros", "net", "io-util", "time"] }
tokio-socks = "0.5"
trust-dns-proto = "0.23"
