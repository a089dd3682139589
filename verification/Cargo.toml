[package]
name = "ptacek"
version = "0.1.0"
edition = "2021"
publish = false

[dependencies]
chrono = "0.4"
ical = "*"
rrule = "*"
reqwest = { version = "0.12", default-features = false, features = ["stream"] }
serde = { version = "1", features = ["derive"] }
serde_json = "1"
log = "0.4"
tokio = { version = "1", features = ["time", "sync", "macros", "rt-multi-thread"] }
futures-util = "0.3"
keyring = "3"
fs2 = "0.4"
mouse_position = "0.1"
