[package]
name = "market_ingest"
version = "0.1.0"
edition = "2021"
publish = false

[dependencies]
chrono = "=0.4.45"
clap = "=2.34.0"
polygon_io = "=3.2.2"
ratelimit = "=0.4.4"
serde = { version = "=1.0.229", features = ["derive"] }
serde_json = "=1.0.154"
threadpool = "=1.8.1"
ureq = { version = "=1.5.5", features = ["json"] }
zdb = "=0.1.0"
