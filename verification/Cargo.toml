[package]
name = "staking_indexer"
version = "0.1.0"
edition = "2021"
publish = false

[dependencies]
ethers = "*"
eyre = "*"
tokio = { version = "*", features = ["macros", "rt-multi-thread", "time"] }
