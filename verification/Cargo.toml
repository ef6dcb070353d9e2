[package]
name = "index_sync"
version = "0.1.0"
edition = "2021"
publish = false

[dependencies]
anyhow = "1"
clap = { version = "4", features = ["derive"] }
diesel = { version = "2", features = ["postgres"] }
indicatif = "0.17"
serde = { version = "1", features = ["derive"] }
serde_json = "1"
