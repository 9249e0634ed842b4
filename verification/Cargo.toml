[package]
name = "tangl"
version = "0.1.0"
edition = "2021"
publish = false

[dependencies]
clap = "=4.6.7"
colored = "=2.2.0"
log = "=0.4.34"
petgraph = "=0.8.3"
uuid = { version = "=1.27.0", features = ["v4"] }
