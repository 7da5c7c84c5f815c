[package]
name = "larql_represent"
version = "0.1.0"
edition = "2021"
publish = false

[dependencies]
libc = "0.2"
memmap2 = "0.9"
serde = { version = "1", features = ["derive"] }
serde_json = "1"
sha2 = "0.10"

[dev-dependencies]
tempfile = "3"
