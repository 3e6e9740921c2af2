[package]
name = "redoxfs"
version = "0.1.0"
edition = "2021"
publish = false

[dependencies]
redox_syscall = "*"
fuse = "0.3"
time = "0.1"
