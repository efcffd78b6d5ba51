[package]
name = "blackjack_ev"
version = "0.1.0"
edition = "2021"
publish = false

[dependencies]
num-bigint = "0.4"
num-rational = "0.4"
tokio-util = "0.7"
rayon = "1"
