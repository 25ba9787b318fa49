[package]
name = "twitter_analyzer"
version = "0.1.0"
edition = "2021"
publish = false

[dependencies]
chrono = "*"
clap = "*"
egg-mode = "*"
tokio = { version = "*", features = ["macros", "rt-multi-thread"] }
walkdir = "*"
