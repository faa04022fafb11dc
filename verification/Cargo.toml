[package]
name = "dir_pool"
version = "0.1.0"
edition = "2021"
publish = false

[dependencies]
lru-cache = "*"
sharded-slab = "*"
onedrive-api = "*"
serde = { version = "*", features = ["derive"] }
log = "*"
