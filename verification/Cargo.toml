[package]
name = "guixu"
version = "0.1.0"
edition = "2021"
publish = false

[dependencies]
blake3 = "1"
unicode-normalization = "0.1"
rusqlite = { version = "*", features = ["bundled"] }
serde = { version = "1", features = ["derive"] }
serde_json = "1"
thiserror = "*"
libc = "0.2"
notify = "*"
image = { version = "0.25", default-features = false, features = ["png", "jpeg"] }

[dev-dependencies]
serde_json = "1"
