[package]
name = "stock_watch"
version = "0.1.0"
edition = "2021"
publish = false

[dependencies]
scraper = "=0.29.0"
reqwest = "=0.12.28"
tokio = { version = "=1.54.1", features = ["macros", "rt-multi-thread"] }
