[package]
name = "dir_crawler"
version = "0.1.0"
edition = "2021"
publish = false

[dependencies]
clap = "4"
colored = "2"
indicatif = "0.17"
reqwest = "0.12"
shellexpand = "3"
tokio = { version = "1", features = ["macros", "rt-multi-thread", "sync", "time"] }
