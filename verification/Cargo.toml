[package]
name = "cotti_build_support"
version = "0.1.0"
edition = "2021"
publish = false

[dependencies]
glob = "0.3"
tar = "0.4"
flate2 = "1"
bzip2 = "*"
xz2 = "0.1"
zstd = "*"
zip = { version = "*", default-features = false, features = ["deflate"] }

[dev-dependencies]
tempfile = "3"
