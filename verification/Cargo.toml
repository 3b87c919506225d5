[package]
name = "leanda"
version = "0.1.0"
edition = "2021"
publish = false

[dependencies]
clap = { version = "4.5", features = ["derive"] }
libc = "0.2"
rand = "*"
rayon = "1.10"
