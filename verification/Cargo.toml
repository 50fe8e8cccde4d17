[package]
name = "animstudio"
version = "0.1.0"
edition = "2021"
publish = false

[dependencies]
hmac = "0.12"
sha1 = "0.10"
rand = "0.8"
flate2 = "1"
rusqlite = { version = "0.31", features = ["bundled"] }
serde = { version = "1", features = ["derive"] }
serde_json = "1"
png = "0.17"
ureq = "3"
thiserror = "2"
bytemuck = "1"
