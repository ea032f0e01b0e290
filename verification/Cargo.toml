[package]
name = "bili_live_core"
version = "0.1.0"
edition = "2021"
publish = false

[dependencies]
md-5 = "=0.11.0"
sha2 = "0.10"
rsa = "=0.9.10"
rand = "=0.8.8"
serde = { version = "=1.0.229", features = ["derive"] }
serde_json = "=1.0.151"
reqwest = { version = "=0.13.5", default-features = false, features = ["cookies", "json", "form"] }
tokio = { version = "=1.53.2", features = ["rt-multi-thread", "macros"] }
directories = "=6.0.0"
clap = { version = "=4.6.7", features = ["derive"] }
anyhow = "=1.0.104"
