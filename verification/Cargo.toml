[package]
name = "matrix_bookmarks"
version = "0.1.0"
edition = "2021"
publish = false

[dependencies]
matrix-sdk = { version = "=0.18.0", default-features = false }
ruma = "=0.16.0"
serde = "=1.0.229"
serde_json = "=1.0.151"
tui = "=0.19.0"
