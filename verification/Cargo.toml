[package]
name = "vec_score_drawer"
version = "0.1.0"
edition = "2021"
publish = false

[dependencies]
anyhow = "*"
clap = { version = "*", features = ["derive"] }
num-integer = "*"
regex = "*"
serde = { version = "*", features = ["derive"] }
serde_yaml = "*"
tokio = { version = "*", features = ["io-std", "io-util", "macros", "rt-multi-thread"] }
tower-lsp = "*"
