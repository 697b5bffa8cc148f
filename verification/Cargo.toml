[package]
name = "oxc_json"
version = "0.1.0"
edition = "2021"
publish = false

[dependencies]
oxc_diagnostics = "=0.143.0"
oxc_span = "=0.143.0"
serde_json = "=1.0.154"
