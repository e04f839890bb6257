[package]
name = "expense_manager"
version = "0.1.0"
edition = "2021"
publish = false

[dependencies]
chrono = "*"
dirs = "*"
reqwest = { version = "*", default-features = false, features = ["blocking"] }
