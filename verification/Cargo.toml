[package]
name = "alfred_gitignore"
version = "0.1.0"
edition = "2021"
publish = false

[dependencies]
alfred = "*"
clap = "2"
reqwest = { version = "0.11", default-features = false, features = ["blocking"] }
zip = "*"
