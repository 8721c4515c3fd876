[package]
name = "agent_core"
version = "1.0.0"
edition = "2021"
publish = false

[dependencies]
priority-queue = "*"
rustc-hash = "*"
rayon = "*"
serde = { version = "*", features = ["derive"] }
serde_json = "*"
jni = "0.21"
log = "0.4"
android_logger = "*"
