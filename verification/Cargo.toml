[package]
name = "ntt_primes"
version = "0.1.0"
edition = "2021"
publish = false

[dependencies]
actix = "0.13"
log = "0.4"
tokio = { version = "1", features = ["rt", "sync"] }
