[package]
name = "telegram-relay"
version = "0.1.0"
edition = "2021"
publish = false

[dependencies]
anyhow = "=1.0.104"
base64 = "=0.22.1"
chrono = { version = "=0.4.45", default-features = false, features = ["std"] }
clap = { version = "=4.6.7", features = ["derive"] }
dotenvy = "=0.15.7"
# Not used directly: grammers-crypto does not build with the final 2.0.0.
glass_pumpkin = "=2.0.0-rc0"
grammers-client = "=0.10.0"
grammers-session = "=0.10.0"
lru = "=0.12.5"
rand = "=0.8.8"
reqwest = { version = "=0.12.28", default-features = false, features = ["json", "multipart", "rustls-tls"] }
rpassword = "=7.5.4"
rusqlite = { version = "=0.32.1", features = ["bundled"] }
serde = { version = "=1.0.229", features = ["derive"] }
serde_json = "=1.0.154"
serde_yaml = "=0.9.34"
tokio = { version = "=1.54.1", features = ["rt-multi-thread", "macros", "signal", "sync", "time", "fs"] }
tracing = "=0.1.44"
tracing-subscriber = { version = "=0.3.23", features = ["env-filter"] }
