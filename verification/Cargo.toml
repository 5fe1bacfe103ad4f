[package]
name = "notion_fetch"
version = "0.1.0"
edition = "2021"
publish = false

[dependencies]
queues = "*"
anyhow = "*"
clap = { version = "*", features = ["derive"] }
notion = "*"
tokio = { version = "*", features = ["rt-multi-thread", "macros"] }
