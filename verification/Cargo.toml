[package]
name = "mixolume"
version = "0.1.0"
edition = "2021"
publish = false

[dependencies]
block2 = "0.6"
env_logger = "0.11"
image = { version = "0.25", default-features = false, features = ["png"] }
libc = "0.2"
libproc = "0.14"
log = "0.4"
objc2 = "0.6"
objc2-app-kit = "0.3"
objc2-core-audio = "0.3"
objc2-core-audio-types = "0.3"
objc2-core-foundation = "0.3"
objc2-foundation = "0.3"
serde = { version = "1", features = ["derive"] }
serde_json = "1"
thiserror = "2"
tokio = { version = "1", features = ["rt", "time"] }
webrtc-vad = "0.4"
