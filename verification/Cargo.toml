[package]
name = "egraph_serialize"
version = "0.1.0"
edition = "2021"
publish = false

[dependencies]
indexmap = { version = "=2.14.2", features = ["serde"] }
serde = { version = "=1.0.229", features = ["derive"] }
serde_json = "=1.0.151"
ordered-float = { version = "=5.5.0", features = ["serde"] }
graphviz-rust = "=0.9.9"
