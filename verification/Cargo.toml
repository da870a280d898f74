[package]
name = "total_order_multicast"
version = "0.1.0"
edition = "2021"
publish = false

[dependencies]
rand = "0.8"
kompact = "0.11"
futures = "0.3"
