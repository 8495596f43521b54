[package]
name = "graph_trace"
version = "0.1.0"
edition = "2021"
publish = false

[dependencies]
colored = "*"
rand = "*"
serde = { version = "*", features = ["derive"] }
serde_json = "*"
