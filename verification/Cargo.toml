[package]
name = "aiomsg"
version = "0.1.0"
edition = "2021"
publish = false

[dependencies]
async-std = "=1.13.2"
async-stream = "=0.3.6"
bytes = "=1.12.1"
futures = "=0.3.34"
log = "=0.4.35"
polling = "=3.11.0"
pretty_env_logger = "=0.5.0"
rustls = { version = "=0.23.46", default-features = false, features = ["ring", "std"] }
thiserror = "=1.0.69"
tokio = { version = "=1.54.1", features = ["io-util", "macros", "net", "rt", "rt-multi-thread", "sync", "time"] }
tokio-rustls = { version = "=0.26.6", default-features = false }
tokio-stream = "=0.1.19"
tracing = "=0.1.44"
uuid = { version = "=1.29.0", features = ["v4"] }

[dev-dependencies]
rcgen = "0.13"
