[package]
name = "tikv_parity"
version = "0.1.0"
edition = "2021"
publish = false

[dependencies]
serde = { version = "1", features = ["derive"] }
serde_json = "1"
tikv-client = "0.4"
tokio = { version = "1", features = ["rt-multi-thread", "macros", "time"] }
async-trait = "0.1"
bytes = "1"
env_logger = "0.10"
log = "0.4"
libc = "0.2"
