[package]
name = "walker"
version = "0.1.0"
edition = "2021"
publish = false

[dependencies]
url = "2"
reqwest = { version = "0.12", default-features = false }
tokio = { version = "1", features = ["macros", "rt-multi-thread"] }
scraper = "*"
clap = { version = "4", features = ["derive"] }
colored = "*"
futures = "*"
arboard = "*"

[dev-dependencies]
serde_json = "1"
