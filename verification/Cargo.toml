[package]
name = "hllset"
version = "0.1.0"
edition = "2021"
publish = false

[dependencies]
murmur3 = "=0.5.2"
sha1 = "=0.10.7"
hex = "=0.4.3"
serde = { version = "=1.0.229", features = ["derive"] }
serde_json = "=1.0.154"
thiserror = "=1.0.69"
mlua = { version = "0.10", features = ["lua54", "vendored"] }
rusqlite = { version = "=0.41.1", features = ["bundled"] }
tokio = { version = "=1.54.1", features = ["rt-multi-thread", "macros", "signal"] }
tracing = "=0.1.44"
bytes = "=1.12.1"
sled = "=0.34.7"
ipfrs-core = "=0.2.0"
