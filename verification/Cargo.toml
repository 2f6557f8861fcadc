[package]
name = "ze_engine"
version = "0.1.0"
edition = "2021"
publish = false

[dependencies]
bitvec = "1"
petgraph = "0.6"
num_cpus = "1"
crossbeam-channel = "0.5"
parking_lot = "0.12"
once_cell = "1"
serde = { version = "1", features = ["derive"] }
num-traits = "0.2"
num-derive = "0.4"
enumflags2 = "0.7"
