[package]
name = "lsm_kv"
version = "0.1.0"
edition = "2021"
publish = false

[dependencies]
crc = "1"
fnv = "1"
libc = "0.2"
owning_ref = "0.4"
