[package]
name = "mikall"
version = "0.1.0"
edition = "2021"
publish = false

[dependencies]
blake3 = "=1.8.7"
chacha20poly1305 = "=0.10.1"
ed25519-dalek = { version = "=2.2.0", features = ["rand_core"] }
rand = "=0.8.8"
uuid = { version = "=1.29.0", features = ["v7"] }
zeroize = "=1.9.1"
async-trait = "=0.1.92"
futures = "=0.3.34"
tokio = { version = "=1.54.1", features = ["rt", "rt-multi-thread", "macros", "sync", "time", "net", "io-util"] }
tracing = "=0.1.44"
thiserror = "=2.0.21"
serde = { version = "=1.0.229", features = ["derive"] }
ciborium = "=0.2.2"
libp2p = { version = "=0.56.0", features = ["tokio", "tcp", "quic", "noise", "yamux", "gossipsub", "kad", "mdns", "identify", "request-response", "cbor", "macros", "ed25519"] }
openh264 = "0.9"
audiopus = "=0.3.0-rc.0"
