[package]
name = "sn_routing"
version = "0.1.0"
edition = "2021"
publish = false

[dependencies]
blsttc = "*"
sha3 = "*"

[dev-dependencies]
rand = "*"
