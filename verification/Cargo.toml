[package]
name = "iroh_dns_server"
version = "0.1.0"
edition = "2021"
publish = false

[dependencies]
anyhow = "*"
async-trait = "*"
axum = "=0.7.9"
bytes = "*"
clap = { version = "*", features = ["derive"] }
dirs-next = "*"
ed25519-dalek = "=2.2.0"
hickory-proto = "=0.24.4"
hickory-server = "=0.24.4"
parking_lot = "*"
redb = "=4.3.0"
serde = { version = "*", features = ["derive"] }
tokio = { version = "*", features = ["rt-multi-thread", "macros", "net", "signal", "fs"] }
tokio-util = "*"
toml = "*"
tower_governor = "=0.4.3"
tower-http = { version = "=0.5.2", features = ["cors", "trace"] }
tracing = "*"
tracing-subscriber = "*"

[dev-dependencies]
z32 = "=1.3.0"
