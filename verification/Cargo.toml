[package]
name = "oru_node"
version = "0.1.0"
edition = "2021"
publish = false

[dependencies]
libp2p = { version = "*", default-features = false, features = ["dcutr", "ed25519", "identify", "macros", "noise", "relay", "rendezvous", "tcp", "tokio", "yamux"] }
libp2p-identity = { version = "*", default-features = false, features = ["ed25519", "peerid", "rand"] }
tokio = { version = "*", default-features = false, features = ["macros", "rt-multi-thread"] }
