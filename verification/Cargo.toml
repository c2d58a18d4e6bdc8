[package]
name = "babygit"
version = "0.1.0"
edition = "2021"
publish = false

[dependencies]
crc32fast = "=1.5.4"
anyhow = "=1.0.104"
clap = { version = "=4.6.7", features = ["derive"] }
dotenv = "=0.15.0"
log = "=0.4.35"
notify = "=8.2.1"
uuid = { version = "=1.29.0", features = ["v7"] }
spacetimedb = "=2.5.0"
spacetimedb-sdk = "=2.5.0"
