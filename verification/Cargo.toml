[package]
name = "albumfs"
version = "0.1.0"
edition = "2021"
publish = false

[dependencies]
argon2 = "0.5"
blake3 = "1"
chacha20poly1305 = "0.10"
crc = "3"
crc32fast = "1"
rand = "0.8"
rand_chacha = "0.3"
image = { version = "0.25", default-features = false, features = ["png", "jpeg"] }
fuser = { version = "0.15", default-features = false }
libc = "0.2"
clap = { version = "4", features = ["derive"] }
anyhow = "1"
thiserror = "1"
