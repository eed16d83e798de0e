[package]
name = "qsib_sensor"
version = "0.1.0"
edition = "2021"
publish = false

[dependencies]
heapless = "*"
rand_core = "*"
rand_xorshift = "*"
spin = "*"

[dev-dependencies]
rand = "*"
