[package]
name = "filesystem"
version = "0.1.0"
edition = "2021"
publish = false

[dependencies]
chrono = "0.4"
thin-vec = { version = "0.2", features = ["serde"] }
memchr = "2"
plist = "1"
serde = { version = "1", features = ["derive"] }
serde_json = "1"
uuid = { version = "1", features = ["v4", "v7"] }
xattr = "1"
crossbeam-channel = "0.5"
notify = "6"
rayon = "1"
tempfile = "3"
log = "0.4"
tracing = "0.1"
postcard = { version = "1", features = ["use-std"] }
zstd = "0.13"
moka = { version = "0.12", features = ["sync"] }
memmap2 = "0.9"
thiserror = "1"
