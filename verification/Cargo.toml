[package]
name = "bench"
version = "0.1.0"
edition = "2021"
publish = false

[dependencies]
anyhow = "=1.0.104"
bincode = "=1.3.3"
c-kzg = "=2.1.8"
clap = { version = "=4.6.7", features = ["derive"] }
env_logger = "=0.11.11"
flate2 = "=1.1.10"
futures-util = "=0.3.34"
google-cloud-pubsub = "=0.30.0"
hex = "=0.4.3"
libc = "=0.2.191"
log = "=0.4.35"
num = "=0.4.3"
serde = { version = "=1.0.229", features = ["derive"] }
serde_json = "=1.0.154"
sha2 = "=0.10.9"
tokio = { version = "=1.54.1", features = ["rt-multi-thread", "time"] }
ureq = { version = "=2.12.1", features = ["json"] }
