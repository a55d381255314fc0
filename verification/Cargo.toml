[package]
name = "ani-dl"
version = "0.1.0"
edition = "2021"
publish = false

[dependencies]
anyhow = "1"
colored = "*"
directories = "*"
indicatif = "*"
inquire = "*"
regex = "1"
reqwest = { version = "0.12", default-features = false, features = ["blocking", "rustls-tls"] }
scraper = "*"
serde = { version = "1", features = ["derive"] }
spinners = "*"
threadpool = "*"
