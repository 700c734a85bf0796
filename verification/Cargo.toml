[package]
name = "tarmac"
version = "0.1.0"
edition = "2021"
publish = false

[dependencies]
globset = "0.4"
log = "0.4"
sha2 = "0.10"
snafu = "0.6"
walkdir = "2"
