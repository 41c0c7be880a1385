[package]
name = "malloc_freq"
version = "0.1.0"
edition = "2021"
publish = false

[dependencies]
anyhow = "1"
args = "2.2"
backtrace = "0.3"
getopts = "0.2"
glob = "0.3"
libc = "0.2"
num-format = "0.4"
once_cell = "1"
radix_trie = { version = "0.2", features = ["serde"] }
serde = { version = "1", features = ["derive"] }
serde_yaml = "0.8"
