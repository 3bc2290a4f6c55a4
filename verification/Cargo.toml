[package]
name = "bitmessage_node"
version = "0.1.0"
edition = "2021"
publish = false

[dependencies]
bs58 = "=0.5.1"
ecies = { version = "=0.2.11", default-features = false, features = ["pure", "std"] }
libsecp256k1 = "=0.7.2"
queues = "=1.1.0"
rand = "=0.10.3"
ripemd = "=0.2.0"
sha2 = "=0.11.0"
