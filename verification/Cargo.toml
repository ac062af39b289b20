[package]
name = "stateless"
version = "0.1.0"
edition = "2021"
publish = false

[dependencies]
alloy-consensus = { version = "=1.8.3", features = ["serde"] }
alloy-eip7928 = { version = "=0.3.7", features = ["rlp"] }
alloy-eips = { version = "=1.8.3", features = ["serde"] }
alloy-genesis = "=1.8.3"
alloy-primitives = { version = "=1.7.3", features = ["serde"] }
alloy-rlp = "=0.3.17"
alloy-trie = { version = "=0.9.9", features = ["serde"] }
clap = { version = "4.5", features = ["derive"] }
revm = { version = "=34.0.0", features = ["serde"] }
revm-state = { version = "=9.0.0", features = ["serde"] }
serde = { version = "1", features = ["derive"] }
thiserror = "2"
