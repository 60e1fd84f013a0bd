[package]
name = "obzenflow_topology"
version = "0.5.1"
edition = "2021"
publish = false

[dependencies]
obzenflow-idkit = { version = "*", features = ["serde"] }
serde = { version = "1", features = ["derive"] }
serde_json = "1"
thiserror = "*"
once_cell = "1"
