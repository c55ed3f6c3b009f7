[package]
name = "kalpakdb"
version = "0.6.0"
edition = "2021"
publish = false

[dependencies]
axum = { version = "0.8", features = ["ws"] }
axum-server = { version = "0.7", features = ["tls-rustls"] }
bincode = { version = "2", features = ["serde"] }
blake3 = { version = "1", features = ["pure"] }
bytes = "1"
ed25519-dalek = "2"
hex = "0.4"
io-uring = "0.7"
moka = { version = "0.12", features = ["sync"] }
openraft = { version = "0.9", features = ["serde", "storage-v2"] }
prost = "0.14"
rcgen = "0.14"
reqwest = { version = "0.12", default-features = false, features = ["json", "rustls-tls"] }
rustls = { version = "0.23", default-features = false, features = ["ring", "std"] }
rustls-pemfile = "2"
serde = { version = "1", features = ["derive"] }
serde_json = "1"
tar = "0.4"
tempfile = "3"
thiserror = "2"
tokio = { version = "1", features = ["full"] }
tokio-stream = "0.1"
tokio-util = { version = "0.7", features = ["io"] }
tonic = "0.14"
tonic-prost = "0.14"
tower-http = { version = "0.6", features = ["cors"] }
