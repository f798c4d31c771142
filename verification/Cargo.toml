[package]
name = "greenfield_engine"
version = "0.1.0"
edition = "2021"
publish = false

[dependencies]
glam = "*"
serde = { version = "*", features = ["derive"] }
serde_json = "*"
bytemuck = { version = "*", features = ["derive"] }
