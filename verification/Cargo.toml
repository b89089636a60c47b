[package]
name = "rtic_zero"
version = "0.1.0"
edition = "2021"
publish = false

[dependencies]
proc-macro2 = "=1.0.107"
unicode-ident = "=1.0.27"
serde = { version = "=1.0.229", features = ["derive"] }
serde_json = "=1.0.154"
cortex-m = "=0.7.10"
cortex-m-semihosting = "=0.3.7"
