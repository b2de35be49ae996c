[package]
name = "btree_slab"
version = "0.1.0"
edition = "2021"
publish = false

[dependencies]
slab = "=0.4.12"
smallvec = "1"

[dev-dependencies]
rand = { version = "=0.8.8", features = ["small_rng"] }
