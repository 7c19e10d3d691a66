[package]
name = "dirscan"
version = "0.1.0"
edition = "2021"
publish = false

[dependencies]
scraper = "=0.27.0"
clap = "=4.6.7"
reqwest = { version = "=0.13.5", default-features = false, features = ["blocking", "json"] }
image = "=0.25.10"
nsfw = "=0.2.0"
serde_json = "=1.0.151"
toml = "=1.1.7"
# not used directly: nsfw -> tract-linalg -> liquid-core pulls kstring in,
# and its newer patch releases declare a rust-version beyond this toolchain
kstring = "=2.0.0"
