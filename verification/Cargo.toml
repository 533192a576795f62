[package]
name = "butido"
version = "0.1.0"
edition = "2021"
publish = false

[dependencies]
anyhow = "=1.0.104"
clap = "=4.6.7"
colored = "=2.2.0"
sha1 = "=0.10.7"
sha2 = "=0.10.9"
url = "=2.5.8"
uuid = "=1.27.0"
walkdir = "=2.5.0"
which = "4"
