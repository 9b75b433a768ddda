[package]
name = "hey_listen"
version = "0.2.0"
edition = "2021"

[dependencies]
failure = "0.1"
failure_derive = "0.1"
parking_lot = "0.5"
rayon = "1.0"
