[package]
name = "blockstore"
version = "0.1.0"
edition = "2021"
publish = false

[dependencies]
bincode = "1.3"
trees = "0.4"
libc = "0.2"
log = "0.4"
tempfile = "3"
thiserror = "1"
serde = { version = "1", features = ["derive"] }
rocksdb = { version = "0.21", default-features = false }
