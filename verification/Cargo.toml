[package]
name = "trin"
version = "0.1.0"
edition = "2021"
publish = false

[dependencies]
discv5 = "=0.9.1"
rand = "=0.8.8"
tokio = { version = "=1.54.1", features = ["rt-multi-thread", "macros", "time", "sync"] }
anyhow = "=1.0.104"
thiserror = "=1.0.69"
delay_map = "=0.4.1"
clap = { version = "=4.6.7", features = ["derive"] }
lru = "=0.12.5"
serde_json = "=1.0.154"
async-trait = "=0.1.92"
ruint = "1"
