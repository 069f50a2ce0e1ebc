[package]
name = "mbqc_scheduling"
version = "0.1.0"
edition = "2021"
publish = false

[dependencies]
bincode = "=1.3.3"
clap = "4"
rand = "0.8"
rand_pcg = "0.3"
scoped_threadpool = "0.1"
serde = { version = "1", features = ["derive"] }
serde_json = "1"
