[package]
name = "loro_graph"
version = "0.1.0"
edition = "2021"
publish = false

[dependencies]
fractional_index = "*"
rand = "0.8"
serde = { version = "1", features = ["derive"] }
postcard = { version = "1", features = ["use-std"] }
thiserror = "1"

[dev-dependencies]
serde_json = "1"
