[package]
name = "nyancache"
version = "0.1.0"
edition = "2021"
publish = false

[dependencies]
anyhow = "=1.0.104"
async-trait = "=0.1.92"
base64 = "=0.13.1"
cached = "0.51"
diesel = { version = "2", features = ["sqlite"] }
hyper = { version = "=0.14.32", features = ["client", "http1", "http2", "stream"] }
hyper-rustls = { version = "0.24", features = ["http2"] }
log = "=0.4.34"
ring = "=0.17.14"
rocket = "=0.5.2"
rocket_sync_db_pools = { version = "0.1", features = ["diesel_sqlite_pool"] }
serde = { version = "=1.0.229", features = ["derive"] }
serde_json = "=1.0.154"
strum_macros = "=0.24.3"
thiserror = "=1.0.69"
tokio = { version = "=1.54.1", features = ["fs", "io-util", "sync"] }
