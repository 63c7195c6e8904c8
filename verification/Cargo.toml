[package]
name = "sv39_kernel"
version = "0.1.0"
edition = "2021"
publish = false

[dependencies]
bitflags = "1.3"
buddy_system_allocator = { version = "0.6", default-features = false, features = ["use_spin"] }
lazy_static = "1.4"
log = "0.4"
spin = "0.7"
