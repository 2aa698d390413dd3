[package]
name = "pm64"
version = "0.1.0"
edition = "2021"
publish = false

[dependencies]
serde = { version = "1", features = ["derive"] }
serde_derive = "1"
rmp-serde = "*"
ron = "*"
regex = "1"
midly = "*"
log = "0.4"
