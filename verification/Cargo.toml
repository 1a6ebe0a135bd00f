[package]
name = "freq_sage"
version = "0.1.0"
edition = "2021"
publish = false

[dependencies]
anyhow = "1"
blake3 = { version = "1", features = ["pure"] }
clap = { version = "4", features = ["derive"] }
diesel = { version = "2", default-features = false }
dotenvy = "0.15"
once_cell = "1"
redb = "3"
redb-derive = "*"
regex = "1"
