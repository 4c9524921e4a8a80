[package]
name = "agent_r"
version = "0.1.0"
edition = "2021"
publish = false

[dependencies]
image = { version = "0.24", default-features = false, features = ["gif", "png", "ico"] }
font8x8 = "0.3"
nvml-wrapper = "0.9"
serde = { version = "1", features = ["derive"] }
