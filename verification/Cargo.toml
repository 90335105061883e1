[package]
name = "sfu"
version = "0.1.0"
edition = "2021"
publish = false

[dependencies]
str0m = "*"
serde = { version = "1", features = ["derive"] }
serde_json = "1"
tokio = { version = "1", features = ["rt-multi-thread", "net", "sync", "time", "macros"] }
log = "0.4"
coasys_juniper = "*"
