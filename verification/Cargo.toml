[package]
name = "rustweb"
version = "0.2.0"
edition = "2021"
publish = false

[dependencies]
clap = { version = "=4.6.7", features = ["derive"] }
serde = { version = "=1.0.229", features = ["derive"] }
serde_json = "=1.0.154"
syn = "=3.0.9"
thiserror = "=2.0.21"
