[package]
name = "stwo_vcs"
version = "0.1.0"
edition = "2021"
publish = false

[dependencies]
stwo = "*"
stwo-constraint-framework = "*"
serde = { version = "*", features = ["derive"] }
serde_json = "*"
hex = "*"
anyhow = "*"
num-traits = "*"
