[package]
name = "emacs_rust"
version = "0.1.0"
edition = "2021"
publish = false

[dependencies]
anyhow = "1"
libc = "0.2"
libloading = "0.8"
rusqlite = { version = "0.31", features = ["bundled", "load_extension"] }
sha2 = "0.10"
tempfile = "3"
