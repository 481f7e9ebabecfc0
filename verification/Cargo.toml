[package]
name = "cloud-netconfig"
version = "0.1.0"
edition = "2021"
publish = false

[dependencies]
anyhow = "1"
async-trait = "*"
futures = "0.3"
rtnetlink = "*"
tokio = { version = "1", features = ["rt", "rt-multi-thread", "macros"] }
