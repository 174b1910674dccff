[package]
name = "enc_kv_store"
version = "0.1.0"
edition = "2021"
publish = false

[dependencies]
anyhow = "1"
argon2 = "0.5"
base64 = "0.22"
bincode = "2"
once_cell = "1"
rand = "0.9"
ring = "0.17"
