[package]
name = "lazy_signals"
version = "0.1.0"
edition = "2021"
publish = false

[dependencies]
bevy = { version = "0.14", default-features = false }
bevy_ecs = "0.14"
bevy_utils = "0.14"
thiserror = "1"
