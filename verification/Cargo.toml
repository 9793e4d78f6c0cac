[package]
name = "tpt_dsp"
version = "0.1.0"
edition = "2021"
publish = false

[dependencies]
crossbeam-channel = "0.5"
num-complex = "0.4"
num-traits = "0.2"
rustfft = "6"
hound = "3.5"
clap = { version = "4", features = ["derive"] }
anyhow = "1"
futures = "0.3"
tokio = { version = "1", features = ["sync", "rt", "macros"] }
