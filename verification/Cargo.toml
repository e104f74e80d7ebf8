[package]
name = "unchecked_audit"
version = "0.1.0"
edition = "2021"
publish = false

[dependencies]
anyhow = "*"
syn = { version = "*", features = ["full"] }
