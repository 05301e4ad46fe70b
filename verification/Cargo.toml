[package]
name = "ciforest"
version = "0.1.0"
edition = "2021"
publish = false

[dependencies]
rand = "0.8"
rand_chacha = "0.3"
hashbrown = "0.15"
dashmap = "6"
rayon = "1"
sys-info = "0.9"
csv = "1"
serde = { version = "1", features = ["derive"] }
rmp-serde = "1"
atomic_float = "1"
lazy_static = "1"
