[package]
name = "concensus"
version = "0.1.0"
edition = "2021"
publish = false

[dependencies]
rand = "=0.10.3"
tokio = { version = "=1.54.1", features = ["full"] }
serde = { version = "=1.0.229", features = ["derive"] }
serde_json = "=1.0.154"
bytes = "=1.12.1"
async-trait = "=0.1.92"
clap = { version = "=4.6.7", features = ["derive"] }
thiserror = "=2.0.21"
tracing = "=0.1.44"
tracing-subscriber = { version = "=0.3.23", features = ["env-filter"] }
hostname = "=0.4.2"
futures = "=0.3.34"
tonic = "=0.14.9"
tokio-stream = { version = "=0.1.19", features = ["sync"] }
async-stream = "=0.3.6"
duckdb = "*"
