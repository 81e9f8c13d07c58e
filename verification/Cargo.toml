[package]
name = "lute"
version = "0.1.0"
edition = "2021"
publish = false

[dependencies]
foldhash = { version = "=0.2.0", default-features = false }
rand_core = "=0.10.1"
rand_xoshiro = "=0.8.1"
databake = "=0.2.1"
proc-macro-crate = "=3.5.0"
syn = { version = "=3.0.9", features = ["full"] }
