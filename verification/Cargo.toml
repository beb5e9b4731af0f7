[package]
name = "cwl"
version = "0.1.0"
edition = "2021"
publish = false

[dependencies]
serde_json = "*"
chrono = "*"
regex = "*"
anyhow = "*"
serde = { version = "*", features = ["derive"] }
toml = "*"
clap = { version = "*", features = ["derive"] }
colored = "*"
ctrlc = "*"
indicatif = "*"
tokio = { version = "*", features = ["rt-multi-thread", "macros", "time"] }
aws-config = "*"
aws-sdk-cloudwatchlogs = "*"
