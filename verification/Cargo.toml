[package]
name = "workspaces"
version = "0.1.0"
edition = "2021"
publish = false

[dependencies]
bevy = { version = "0.18", default-features = false, features = ["std", "async_executor"] }
tracing = "0.1"
