[package]
name = "weavatrix-search"
version = "0.1.1"
edition = "2021"
publish = false

[dependencies]
memchr = "2"
regex-automata = "0.4"
regex-syntax = "0.8"
encoding_rs = "0.8"
sha2 = "0.10"
xz4rust = "*"
lzma-rs = "0.3"
flate2 = "1"
bzip2-rs = "*"
ruzstd = "*"
lz4_flex = "*"
brotli-decompressor = "*"
tar = "*"
zip = { version = "*", default-features = false, features = ["deflate"] }
weavatrix-scan = "0.4"
notify = "*"
