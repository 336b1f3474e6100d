[package]
name = "gigatoken"
version = "0.1.0"
edition = "2021"
publish = false

[dependencies]
aho-corasick = "1"
base64 = "0.22"
icu = "2"
memchr = "2"
memmap2 = "0.9"
priority-queue = "2"
rayon = "1"
serde = { version = "1", features = ["derive"] }
sonic-rs = "*"
spm_precompiled = "*"

[dev-dependencies]
fancy-regex = "*"
rand = "0.9"
