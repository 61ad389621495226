[package]
name = "typed_store"
version = "0.1.0"
edition = "2021"
publish = false

[dependencies]
leveldb = "0.8"
db-key = "0.0.5"
bincode = "1"
tempdir = "0.3"
serde = "1"
