[package]
name = "evaluator"
version = "0.2.0"
edition = "2021"
publish = false

[dependencies]
clap = "2"
futures-timer = "3"
reqwest = { version = "0.11", features = ["json"] }
rusqlite = "*"
select = "*"
serde = { version = "1", features = ["derive"] }
serde_derive = "1"
serde_json = "1"
steamworks = "*"
tokio = { version = "1", features = ["full"] }
