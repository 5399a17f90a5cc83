[package]
name = "motif-core"
version = "0.0.4"
edition = "2021"
publish = false

[dependencies]
sysinfo = "0.30"
serde = { version = "1", features = ["derive"] }
toml = "0.8"
thiserror = "1"
fs2 = "0.4"
tempfile = "3"
tracing = "0.1"

[dev-dependencies]
bincode = "2"
