[package]
name = "chronicle_broker"
version = "0.1.0"
edition = "2021"
publish = false

[dependencies]
anyhow = "=1.0.104"
async-trait = "=0.1.92"
bee-common = "=0.5.0"
bee-message = { version = "=0.1.7", features = ["serde"] }
dotenv = "=0.15.0"
env_logger = "=0.11.11"
futures = "=0.3.34"
log = "=0.4.34"
num_cpus = "=1.17.0"
scylla-rs = "=0.1.6"
serde = { version = "=1.0.229", features = ["derive"] }
tokio = { version = "=1.54.1", features = ["macros", "rt-multi-thread", "sync", "time"] }
url = { version = "=2.5.8", features = ["serde"] }
