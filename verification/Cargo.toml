[package]
name = "find_duplicates"
version = "0.1.0"
edition = "2021"
publish = false

[dependencies]
clap = { version = "4", features = ["derive"] }
dialoguer = "0.11"
md-5 = "0.10"
walkdir = "2"
