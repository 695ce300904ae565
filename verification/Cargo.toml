[package]
name = "folio_core"
version = "0.1.0"
edition = "2021"
publish = false

[dependencies]
similar = "2"
sha2 = "0.10"
chrono = { version = "0.4", default-features = false, features = ["clock", "std"] }
rand = "0.8"
globset = "0.4"
regex = "1"
serde = { version = "1", features = ["derive"] }
serde_json = "1"
serde_yaml_ng = "0.10"
rusqlite = { version = "0.32", features = ["bundled"] }
walkdir = "2"
notify = "7"
notify-debouncer-full = "0.4"
dirs = "5"
rmcp = { version = "*", features = ["server", "transport-io"] }
thiserror = "2"
tokio = { version = "1", features = ["rt-multi-thread", "macros", "io-std", "io-util", "net", "sync", "time"] }

[dev-dependencies]
tempfile = "3"
