[package]
name = "rdlt_engine"
version = "0.1.0"
edition = "2021"
publish = false

[dependencies]
arrow = { version = "58", default-features = false, features = ["ipc"] }
arrow-array = { version = "58", features = ["chrono-tz"] }
arrow-cast = "58"
arrow-json = "58"
arrow-row = "58"
arrow-schema = "58"
arrow-select = "58"
blake3 = { version = "1", features = ["pure"] }
chrono = { version = "0.4", default-features = false, features = ["std"] }
libc = "0.2"
parking_lot = "0.12"
serde = { version = "1", features = ["derive"] }
serde_json = "1"
thiserror = "2"
tokio = { version = "1", features = ["rt", "sync", "time"] }
tracing = "0.1"

[dev-dependencies]
tempfile = "3"
