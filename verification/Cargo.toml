[package]
name = "rustorrent"
version = "0.1.0"
edition = "2021"
publish = false

[dependencies]
getrandom = "0.3"
num-bigint = "0.4"
num-traits = "0.2"
native-tls = "0.2"
libc = "0.2"
sha1 = "0.10"
sha2 = "0.10"
roxmltree = "0.20"
