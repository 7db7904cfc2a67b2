[package]
name = "turbo_tasks"
version = "0.1.0"
edition = "2021"
publish = false

[dependencies]
regex = "1"
syn = { version = "1", features = ["full"] }
quote = "1"
proc-macro2 = "1"
serde = { version = "1", features = ["derive"] }
anyhow = "1"
json = "0.12"
mopa = "0.2"
