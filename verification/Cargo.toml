[package]
name = "dmx_relay"
version = "0.1.0"
edition = "2021"
publish = false

[dependencies]
artnet_protocol = "*"
sacn-unofficial = "*"
serde = { version = "1", features = ["derive"] }
toml = "*"
tracing = "0.1"
tracing-subscriber = "0.3"
color-eyre = "0.6"
