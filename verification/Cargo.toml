[package]
name = "freerustos"
version = "0.1.0"
edition = "2021"
publish = false

[dependencies]
cortex-m-rt = "0.7"
cortex-m-semihosting = "0.5"
