[package]
name = "rpg"
version = "0.1.0"
edition = "2021"
publish = false

[dependencies]
ordermap = "0.5"
rand = "0.9"
serde = { version = "1", features = ["derive"] }
serde_json = "1"
slotmap = "1"
ggez = { version = "0.9", default-features = false }
