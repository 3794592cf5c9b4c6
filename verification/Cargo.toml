[package]
name = "vpfs"
version = "0.1.0"
edition = "2021"
publish = false

[dependencies]
lru = "=0.18.5"
rand = "=0.10.3"
clap = { version = "=4.6.7", features = ["derive"] }
serde = { version = "=1.0.229", features = ["derive"] }
serde_bare = "=0.5.0"
