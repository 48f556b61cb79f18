[package]
name = "asf_kernel"
version = "0.1.0"
edition = "2021"
publish = false

[dependencies]
serde = { version = "1", features = ["derive"] }
serde_json = "1"
serde_json_canonicalizer = "*"
sha2 = "0.10"
hex = "0.4"
ed25519-dalek = { version = "2", features = ["rand_core"] }
time = { version = "0.3", features = ["formatting", "parsing"] }
rand = "0.8"
rusqlite = { version = "*", features = ["bundled"] }
walkdir = "2"
aes-gcm = "0.10"
zeroize = "1"
thiserror = "1"
libc = "0.2"
