[package]
name = "pi_rs_host"
version = "0.1.0"
edition = "2021"
publish = false

[dependencies]
base64 = "=0.22.1"
ring = "0.17"
serde_json = "=1.0.154"
serde_yaml = "=0.9.34"
sha2 = "=0.10.9"
url = "2"
