[package]
name = "tx_fee_maximizer"
version = "0.1.0"
edition = "2021"
publish = false

[dependencies]
fastrand = "1"
rayon = "1"
csv = "1"
serde = { version = "1", features = ["derive"] }
clap = { version = "4", features = ["derive"] }
libc = "0.2"
