[package]
name = "bevy_rewind"
version = "0.1.0"
edition = "2021"
publish = false

[dependencies]
arraydeque = "0.5"
arrayvec = { version = "0.7", features = ["serde"] }
bevy = { version = "0.17", default-features = false, features = ["std", "bevy_state", "bevy_log"] }
bevy_replicon = "0.36"
serde = { version = "1", features = ["derive"] }
