[package]
name = "balance_indexer"
version = "0.1.0"
edition = "2021"
publish = false

[dependencies]
hex = "*"
tokio = { version = "*", default-features = false, features = ["macros", "rt-multi-thread", "time"] }
sqlx = { version = "*", default-features = false, features = ["sqlite", "runtime-tokio"] }
jsonrpsee = { version = "*", features = ["http-client"] }
alloy-primitives = "*"
alloy-sol-types = "*"
base64 = "*"
dotenvy = "*"
http = "*"
serde_json = "*"
