[package]
name = "avail_lc_sim"
version = "0.1.0"
edition = "2021"

[dependencies]
bitvec_simd = "*"
rand = { version = "0.8", features = ["small_rng"] }
csv = "1"
indicatif = { version = "*", features = ["rayon"] }
rayon = "1"
