[package]
name = "json_in_type"
version = "0.1.0"
edition = "2021"
publish = false

[dependencies]
itoa = { version = "=0.4.8", features = ["i128"] }
proc-macro2 = "=1.0.107"
quote = "=1.0.47"
ryu-ecmascript = "=0.1.1"
syn = "=3.0.9"

[dev-dependencies]
serde_json = "=1.0.154"
