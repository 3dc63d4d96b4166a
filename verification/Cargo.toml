[package]
name = "encapfn_mpk"
version = "0.1.0"
edition = "2021"
publish = false

[dependencies]
libc = "0.2.191"
log = "0.4.35"
memfd = "0.6.6"
patchelf = "0.2.1"
tempfile = "3.27.0"
