[package]
name = "yip"
version = "0.1.0"
edition = "2021"
publish = false

[dependencies]
crc32fast = "1"
zstd = "0.13"
audiopus = "0.3.0-rc.0"
rustfft = "6"
hound = "3"
clap = { version = "4", features = ["derive"] }
thiserror = "1"
