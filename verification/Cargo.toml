[package]
name = "aether_seeder"
version = "0.1.0"
edition = "2021"
publish = false

[dependencies]
sha2 = "=0.10.9"
regex = "=1.13.1"
reqwest = { version = "=0.12.28", default-features = false, features = ["json", "gzip", "rustls-tls"] }
tokio = { version = "=1.54.1", features = ["macros", "rt-multi-thread", "time", "sync"] }
serde = { version = "=1.0.229", features = ["derive"] }
async-trait = "=0.1.92"
clap = { version = "=4.6.7", features = ["derive", "env"] }
futures = "=0.3.34"
tracing = "=0.1.44"
tracing-subscriber = { version = "=0.3.23", features = ["env-filter"] }
rand = "=0.9.5"
anyhow = "=1.0.104"
thiserror = "=2.0.21"
