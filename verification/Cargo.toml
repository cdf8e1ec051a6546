[package]
name = "graph_service"
version = "0.1.0"
edition = "2021"
publish = false

[dependencies]
tarpc = { version = "*", features = ["full"] }
tokio = { version = "*", features = ["full"] }
clap = "*"
futures = "*"
