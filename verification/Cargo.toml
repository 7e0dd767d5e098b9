[package]
name = "tcp_tunnel"
version = "0.1.0"
edition = "2021"
publish = false

[dependencies]
bytes = "0.5"
futures = "0.3"
structopt = "0.3"
tokio = { version = "0.2", features = ["full"] }
tokio-util = { version = "0.2", features = ["codec"] }
