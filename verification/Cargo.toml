[package]
name = "simple_crawler"
version = "0.1.0"
edition = "2021"
publish = false

[dependencies]
url = "2"
select = "0.6"
anyhow = "1"
futures = "0.3"
tokio = { version = "1", features = ["rt"] }
reqwest = { version = "0.12", default-features = false, features = ["blocking"] }
