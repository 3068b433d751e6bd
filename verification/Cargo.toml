[package]
name = "bloch_pos_node"
version = "0.1.0"
edition = "2021"
publish = false

[dependencies]
sha3 = "=0.10.9"
libc = "=0.2.191"
async-trait = "=0.1.92"
futures = "=0.3.34"
tokio = { version = "1", features = ["rt", "sync", "time", "macros"] }
libp2p = { version = "=0.56.0", default-features = false, features = ["request-response", "gossipsub", "tokio", "tcp", "dns", "noise", "yamux", "identify", "macros", "ed25519"] }
