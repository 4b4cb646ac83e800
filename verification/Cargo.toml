[package]
name = "kgdb"
version = "0.1.0"
edition = "2021"
publish = false

[dependencies]
smallvec = "=1.16.5"
dashmap = "=6.2.1"
num_cpus = "=1.17.0"
thiserror = "=2.0.21"
metrics = "=0.24.6"
tracing = "=0.1.44"
rayon = "=1.12.0"
serde = { version = "=1.0.229", features = ["derive"] }
serde_json = "=1.0.154"
chrono = { version = "=0.4.45", features = ["serde"] }
heed = "=0.20.5"
anyhow = "=1.0.104"
