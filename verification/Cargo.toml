[package]
name = "aabb_physics"
version = "0.1.0"
edition = "2021"
publish = false

[dependencies]
slab = "=0.4.12"
log = "=0.4.34"
mint = "=0.5.9"
fxhash = "=0.2.1"
bitflags = "=2.13.2"
legion = "=0.4.0"
quicksilver = { version = "=0.4.0", default-features = false, features = ["event-cache"] }
