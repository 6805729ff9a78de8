[package]
name = "item_overlay"
version = "0.1.0"
edition = "2021"
publish = false

[dependencies]
serde = { version = "1", features = ["derive"] }
serde_json = "1"
scraper = "*"
threadpool = "1"
ureq = { version = "2", default-features = false }
