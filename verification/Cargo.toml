[package]
name = "zenmanager"
version = "0.1.0"
edition = "2021"
publish = false

[dependencies]
anyhow = "1"
chrono = "0.4"
dirs = "6"
libmtp-rs = "0.7"
lofty = "0.25"
