[package]
name = "earnings"
version = "0.1.0"
edition = "2021"
publish = false

[dependencies]
chrono = "0.4"
crossbeam = "*"
json = "*"
regex = "*"
reqwest = { version = "*", default-features = false, features = ["blocking"] }
scraper = "*"
