[package]
name = "rsync_rs"
version = "0.1.0"
edition = "2021"
publish = false

[dependencies]
anyhow = "1"
clap = { version = "4", features = ["derive"] }
digest = "0.10"
env_logger = "0.11"
flate2 = "1"
libc = "0.2"
log = "0.4"
md4 = "0.10"
md-5 = "0.10"
nix = { version = "0.29", features = ["user", "fs"] }
xattr = "1"
