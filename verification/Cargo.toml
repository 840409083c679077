[package]
name = "timber_rs"
version = "1.0.0"
edition = "2021"
publish = false

[dependencies]
memchr = "2"
regex = "1"
rayon = "1"
serde_json = "1"
serde = { version = "1", features = ["derive"] }
clap = { version = "4", features = ["derive"] }
atty = "0.2"
memmap2 = "0.9"
