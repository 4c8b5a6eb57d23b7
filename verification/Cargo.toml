[package]
name = "image_scrapper"
version = "0.1.0"
edition = "2021"
publish = false

[dependencies]
md5 = "*"
url = "*"
scraper = "*"
reqwest = { version = "*", default-features = false, features = ["cookies"] }
reqwest_cookie_store = "*"
tokio = { version = "*", features = ["macros", "rt", "fs", "io-util"] }
clap = { version = "*", features = ["derive"] }
serde = { version = "*", features = ["derive"] }
serde_json = "*"
chrono = "*"
eyre = "*"
