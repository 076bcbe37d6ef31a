[package]
name = "dns_forwarder"
version = "0.1.0"
edition = "2021"
publish = false

[dependencies]
byteorder = "=1.5.0"
nom = "=7.1.3"
clap = { version = "=4.6.7", features = ["derive"] }
futures = "=0.3.34"
sqlite = "=0.37.4"
tokio = { version = "=1.54.1", features = ["net", "rt-multi-thread", "macros", "time"] }
