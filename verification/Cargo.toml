[package]
name = "merkle_engine"
version = "0.1.0"
edition = "2021"
publish = false

[dependencies]
sha2 = "0.10"
clap = { version = "4", features = ["derive"] }
dotenv = "0.15"
alloy-sol-types = "*"
