[package]
name = "apple_nvram"
version = "0.1.0"
edition = "2021"
publish = false

[dependencies]
adler32 = "1"
crc32fast = "1"
nix = { version = "*", features = ["ioctl"] }
