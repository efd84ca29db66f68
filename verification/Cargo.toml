[package]
name = "orbit"
version = "0.1.0"
edition = "2021"
publish = false

[dependencies]
bytemuck = "1"
bytes = "1"
dashmap = "6"
libc = "0.2"
netid64 = "*"
tracing = "0.1"
