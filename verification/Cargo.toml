[package]
name = "stocko"
version = "0.1.0"
edition = "2021"
publish = false

[dependencies]
alphavantage = "=0.7.1"
ansi_term = "=0.12.1"
clap = "=2.34.0"
futures = "*"
term-table = "=1.4.0"

[dev-dependencies]
serde_json = "=1.0.151"
