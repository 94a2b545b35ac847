[package]
name = "gik"
version = "0.1.0"
edition = "2021"
publish = false

[dependencies]
base64 = "0.22"
bincode = "1"
clap = { version = "4", features = ["derive"] }
colored = "2"
dirs = "5"
dotenvy = "0.15"
flate2 = "1"
hex = "0.4"
ignore = "0.4"
indicatif = "0.17"
redb = "2"
serde = { version = "1", features = ["derive"] }
sha1 = "0.10"
similar = "2"
tempfile = "3"
thiserror = "1"
ureq = "2"
