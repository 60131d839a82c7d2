[package]
name = "meeting_recorder"
version = "1.0.0"
edition = "2021"
publish = false

[dependencies]
glib = { version = "=0.20.12", features = ["v2_66"] }
libc = "=0.2.191"
ort = { version = "=2.0.0-rc.10", default-features = false, features = ["std", "load-dynamic"] }
realfft = "=3.5.1"
regex = "=1.13.1"
serde = { version = "=1.0.229", features = ["derive"] }
serde_json = "=1.0.154"
whisper-rs = "=0.15.1"
