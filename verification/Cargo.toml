[package]
name = "trie_proof"
version = "0.1.0"
edition = "2021"
publish = false

[dependencies]
blake2-rfc = "0.2.18"
futures-channel = "0.3"
futures-util = "0.3"
smol = "1.3"
