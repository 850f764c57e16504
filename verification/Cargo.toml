[package]
name = "gym_count"
version = "0.1.0"
edition = "2021"
publish = false

[dependencies]
scraper = "*"
actix-web = { version = "*", default-features = false, features = ["macros"] }
reqwest = { version = "*", default-features = false }
once_cell = "*"
