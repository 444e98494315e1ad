[package]
name = "robotac"
version = "0.1.0"
edition = "2021"
publish = false

[dependencies]
rand = "0.8"
rand_xorshift = "0.3"
smallvec = "1"
serde = { version = "1", features = ["derive"] }
ron = "0.8"
ratatui = "0.29"
itertools = "*"
enum-map = "2"
crossbeam = "0.8"
