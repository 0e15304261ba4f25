[package]
name = "band_diff"
version = "0.1.0"
edition = "2021"
publish = false

[dependencies]
anyhow = "1"
byteorder = "1"
glob = "0.3"
structopt = "0.3"
