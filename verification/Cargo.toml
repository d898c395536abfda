[package]
name = "dnssync"
version = "0.1.0"
edition = "2021"
publish = false

[dependencies]
url = "=2.5.8"
cidr = "=0.3.2"
ureq = { version = "=2.12.1", features = ["json"] }
serde = { version = "1", features = ["derive"] }
serde_json = "1"
clap = "4"
log = "0.4"
pretty_env_logger = "0.5"
tracing = "0.1"
uuid = "1"
