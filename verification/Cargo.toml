[package]
name = "gtrie"
version = "0.1.0"
edition = "2021"
publish = false

[dependencies]
fixedbitset = "=0.4.2"
petgraph = "=0.6.5"
graph-canon = "=0.1.4"
graph6-rs = "=0.2.1"
serde = { version = "=1.0.229", features = ["derive"] }
serde_json = "=1.0.151"
clap = { version = "=4.6.7", features = ["derive"] }
anyhow = "=1.0.104"
