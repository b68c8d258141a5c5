[package]
name = "virtualfs"
version = "0.1.0"
edition = "2021"
publish = false

[dependencies]
async-trait = "0.1"
bzip2 = "=0.4.4"
chrono = "=0.4.45"
dirs = "=5.0.1"
flate2 = "=1.1.10"
librqbit = { version = "=8.1.1", default-features = false, features = ["rust-tls", "disable-upload"] }
serde = { version = "=1.0.229", features = ["derive"] }
serde_json = "=1.0.154"
tar = "=0.4.46"
tokio = { version = "=1.54.1", features = ["full"] }
uuid = { version = "=1.29.0", features = ["v4"] }
zip = "=0.6.6"
