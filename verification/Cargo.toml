[package]
name = "tabular_rl"
version = "0.1.0"
edition = "2021"
publish = false

[dependencies]
rand = "0.8"
rand_chacha = "0.3"
clap = { version = "4", features = ["derive"] }
csv = "1"

[dev-dependencies]
assert_float_eq = "1"
