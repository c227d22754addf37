[package]
name = "coop_netcode"
version = "0.1.0"
edition = "2021"
publish = false

[dependencies]
async-channel = "2"
async-io = "2"
bevy = { version = "0.16", default-features = false, features = ["std", "async_executor", "bevy_state", "multi_threaded"] }
