[package]
name = "solution_cleaner"
version = "0.1.0"
edition = "2021"
publish = false

[dependencies]
rand = "0.8"
anyhow = "1"
clap = { version = "4", features = ["derive"] }
console = "0.15"
indicatif = "0.17"
tokio = { version = "1", features = ["fs", "io-util", "macros", "process", "rt-multi-thread"] }
