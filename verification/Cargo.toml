[package]
name = "final_network_sts"
version = "0.1.0"
edition = "2021"
publish = false

[dependencies]
fxhash = "0.2"
rand = "0.8"
serde_json = "1"
csv = "1"
log = "0.4"
env_logger = "0.10"
