[package]
name = "recipe_graph"
version = "0.1.0"
edition = "2021"
publish = false

[dependencies]
indexmap = "2"
num = "0.4"
serde = { version = "1", features = ["derive"] }
serde_yaml = "0.9"
