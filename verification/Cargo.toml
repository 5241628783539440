[package]
name = "proxynexus"
version = "0.1.0"
edition = "2021"
publish = false

[dependencies]
deunicode = "=1.6.2"
image = { version = "=0.25.10", default-features = false, features = ["png", "jpeg"] }
jpeg-encoder = "=0.7.1"
zip = { version = "=9.2.2", default-features = false, features = ["deflate-flate2"] }
krilla = "=0.8.2"
gluesql = { version = "=0.20.0", default-features = false }
gluesql_sled_storage = "=0.20.0"
reqwest = { version = "=0.12.28", default-features = false, features = ["json", "rustls-tls"] }
tokio = { version = "=1.54.1", features = ["rt-multi-thread", "macros", "time"] }
clap = { version = "=4.6.7", features = ["derive"] }
dirs = "=7.0.0"
serde = { version = "=1.0.229", features = ["derive"] }
serde_json = "=1.0.154"
toml = "=1.1.8"
walkdir = "=2.5.0"
tempfile = "=3.27.0"
thiserror = "=2.0.21"
chrono = "=0.4.45"
rusqlite = { version = "=0.41.1", features = ["bundled"] }
tracing = "=0.1.44"
tracing-subscriber = "=0.3.23"
