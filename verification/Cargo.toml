[package]
name = "meow"
version = "0.1.0"
edition = "2021"
publish = false

[dependencies]
once_cell = "1"
rayon = "1"
regex = "1"
reqwest = { version = "0.12", default-features = false, features = ["blocking", "rustls-tls"] }
scraper = "0.23"
serde = { version = "1", features = ["derive"] }
serde_json = "1"
sha2 = "0.10"
urlencoding = "2"
