[package]
name = "rustbitrage"
version = "0.1.0"
edition = "2021"
publish = false

[dependencies]
alloy = { version = "=2.5.0", default-features = false, features = ["std", "eips"] }
alloy-primitives = "=1.7.3"
alloy-sol-types = "=1.7.3"
ethers-core = { version = "=2.0.14", default-features = false }
dashmap = "=6.1.0"
rayon = "=1.10.0"
tokio = { version = "=1.40.0", features = ["macros", "rt-multi-thread", "sync", "time"] }
serde = { version = "=1.0.229", features = ["derive"] }
serde_json = "=1.0.154"
log = "=0.4.35"
eyre = "=0.6.14"
futures = "=0.3.34"
dotenv = "=0.15.0"
env_logger = "=0.11.11"
