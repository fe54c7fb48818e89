[package]
name = "wordgram_vocab"
version = "0.1.0"
edition = "2021"
publish = false

[dependencies]
fxhash = "0.2"
clap = { version = "4", features = ["derive"] }
rayon = "1"
zstd = "0.13"
