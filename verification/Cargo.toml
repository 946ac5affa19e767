[package]
name = "halo2_proofs"
version = "0.1.0"
edition = "2021"
publish = false

[dependencies]
blake2b_simd = "=1.0.5"
ff = "=0.14.0"
group = "=0.14.0"
maybe-rayon = "=0.1.1"
pasta_curves = { version = "=0.6.1", features = ["deferred", "glv"] }
rand = "=0.10.3"
rand_core = "=0.10.1"
