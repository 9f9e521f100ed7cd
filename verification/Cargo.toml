[package]
name = "netsync"
version = "0.1.0"
edition = "2021"
publish = false

[dependencies]
anyhow = "=1.0.104"
async-channel = "=2.5.0"
bevy = { version = "0.13", default-features = false }
bytes = "=1.12.1"
crossbeam-channel = "=0.5.17"
enum_dispatch = "=0.3.13"
log = "=0.4.34"
serde = { version = "=1.0.229", features = ["derive"] }
tracing = "=0.1.44"
