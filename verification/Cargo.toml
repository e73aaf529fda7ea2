[package]
name = "mpcnet"
version = "0.1.0"
edition = "2021"
publish = false

[dependencies]
rand = "0.8"
libp2p = { version = "=0.53.2", features = ["tokio", "tcp", "noise", "yamux", "kad", "gossipsub", "identify", "request-response", "cbor", "macros", "ed25519"] }
tokio = { version = "1", features = ["macros", "rt-multi-thread", "time"] }
clap = { version = "4", features = ["derive"] }
serde = { version = "1", features = ["derive"] }
serde_json = "1"
sled = "0.34"
hex = "0.4"
futures = "0.3"
async-trait = "0.1"
