[package]
name = "nix_cache_mirror"
version = "0.1.0"
edition = "2021"
publish = false

[dependencies]
chrono = { version = "0.4", default-features = false, features = ["std", "now"] }
xz2 = "0.1"
rusqlite = { version = "0.31", features = ["bundled"] }
hyper = { version = "0.14", features = ["server", "http1", "tcp", "runtime", "stream"] }
tokio = { version = "1", features = ["rt-multi-thread", "time", "sync"] }
futures = "0.3"
futures-intrusive = "0.5"
reqwest = { version = "0.11", default-features = false, features = ["rustls-tls"] }
async-std = "1"
log = "0.4"
env_logger = "0.10"
failure = "0.1"
lazy_static = "1"
serde = { version = "1", features = ["derive"] }
serde_json = "1"
static_assertions = "1"
