[package]
name = "jinga"
version = "0.1.0"
edition = "2021"
publish = false

[dependencies]
anyhow = "=1.0.104"
camino = "=1.2.6"
clap = { version = "=4.6.7", features = ["derive"] }
glob = "=0.3.4"
ipnet = "=2.12.2"
minijinja = "=2.24.0"
serde_json = "=1.0.151"
serde_json_merge = { version = "=0.0.7", features = ["sort"] }
serde_yaml = "=0.9.34"
