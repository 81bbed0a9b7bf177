[package]
name = "eonsort"
version = "0.1.0"
edition = "2021"
publish = false

[dependencies]
chrono = { version = "=0.4.45", default-features = false, features = ["alloc", "clock"] }
blake3 = { version = "=1.8.7", features = ["pure"] }
kamadak-exif = "=0.6.1"
serde = { version = "=1.0.229", features = ["derive"] }
serde_json = "=1.0.154"
base64 = "0.22"

[dev-dependencies]
image = { version = "=0.25.10", default-features = false, features = ["jpeg", "png"] }
