[package]
name = "crount"
version = "0.1.0"
edition = "2021"
publish = false

[dependencies]
search_trail = "*"
malachite = "*"
rustc-hash = "*"
clap = { version = "4", features = ["derive"] }
peak_alloc = "*"
