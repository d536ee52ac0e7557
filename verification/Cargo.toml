[package]
name = "git-nfs"
version = "0.1.0"
edition = "2021"
publish = false

[dependencies]
anyhow = "1"
async-recursion = "1"
async-trait = "0.1"
bytes = "1"
clap = { version = "4", features = ["derive"] }
flate2 = "1"
futures = "0.3"
google-cloud-storage = "1"
hex = "0.4"
libc = "0.2"
lru = "0.12"
nfsserve = "0.10"
parking_lot = "0.12"
prost = "0.13"
reqwest = { version = "0.12", default-features = false, features = ["rustls-tls"] }
sha1 = "0.10"
tempfile = "3"
tokio = { version = "1", features = ["full"] }
tracing = "0.1"
tracing-subscriber = { version = "0.3", features = ["env-filter"] }
