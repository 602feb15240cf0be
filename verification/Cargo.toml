[package]
name = "sunset_relay"
version = "0.1.0"
edition = "2021"
publish = false

[dependencies]
clap = { version = "4", features = ["derive"] }
futures = "0.3"
libp2p = { version = "0.53", features = ["tokio", "tcp", "quic", "dns", "websocket", "noise", "yamux", "relay", "identify", "request-response", "json", "gossipsub", "macros", "ed25519"] }
serde = { version = "1", features = ["derive"] }
tokio = { version = "1", features = ["fs", "signal", "sync", "macros", "rt-multi-thread"] }
tracing = "0.1"
tracing-subscriber = { version = "0.3", features = ["env-filter"] }
