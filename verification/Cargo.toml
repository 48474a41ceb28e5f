[package]
name = "vmcore"
version = "0.1.0"
edition = "2021"
publish = false

[dependencies]
log = "=0.4.34"
x86 = "=0.52.0"
