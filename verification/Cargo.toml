[package]
name = "luminal"
version = "0.1.0"
edition = "2021"
publish = false

[dependencies]
petgraph = "=0.6.5"
num-bigint = "=0.4.8"
num-traits = "=0.2.19"
thiserror = "=1.0.69"
tracing = "0.1"
lazy_static = "1"
serde_json = "1"
bincode = "=2.0.1"
cairo-vm = "3"
cairo-lang-sierra = "=2.21.0"
