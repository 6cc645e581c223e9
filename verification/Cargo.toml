[package]
name = "blackjack"
version = "0.1.0"
edition = "2021"
publish = false

[dependencies]
slotmap = "1"
smallvec = "1"
glam = { version = "*", features = ["serde"] }
serde = { version = "1", features = ["derive"] }
ron = "0.8"
