[package]
name = "airsim_rpc"
version = "0.1.0"
edition = "2021"
publish = false

[dependencies]
async-std = "1"

[dev-dependencies]
rmpv = "1"
