[package]
name = "markdown_downloader"
version = "0.1.0"
edition = "2021"
publish = false

[dependencies]
serde_json = "1"
url = "2"
chrono = "0.4"
serde = { version = "1", features = ["derive"] }
toml = "*"
dirs = "*"
clap = "4"
reqwest = { version = "0.12", default-features = false, features = ["json"] }
tokio = { version = "1", features = ["rt-multi-thread", "macros", "time", "sync"] }
futures = "0.3"
spider = { version = "*", default-features = false }
