[package]
name = "argon"
version = "0.1.0"
edition = "2021"
publish = false

[dependencies]
atty = "*"
clap = { version = "*", features = ["derive"] }
libc = "*"
mimalloc = "*"
rayon = "*"
reqwest = { version = "0.11", default-features = false, features = ["blocking", "rustls-tls"] }
seccompiler = "*"
simd-json = "*"
tracing = "*"
tracing-subscriber = "*"
url = "*"
