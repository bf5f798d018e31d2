[package]
name = "blog_search"
version = "0.1.0"
edition = "2021"
publish = false

[dependencies]
rust-stemmers = "*"
priority-queue = "*"
serde = { version = "*", features = ["derive"] }
serde_json = "*"
