[package]
name = "token_gateway"
version = "0.1.0"
edition = "2021"
publish = false

[dependencies]
async-graphql = "*"
async-graphql-poem = "*"
futures-util = "0.3"
poem = { version = "*", features = ["websocket"] }
serde_json = "1"
tokio = { version = "*", features = ["macros", "rt-multi-thread", "sync"] }
