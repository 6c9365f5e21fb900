[package]
name = "nitrousoxide"
version = "0.1.0"
edition = "2021"
publish = false

[dependencies]
cranelift-codegen = "=0.56.0"
cranelift-module = "=0.56.0"
cranelift-native = "=0.56.0"
cranelift-simplejit = "=0.56.0"
failure = "0.1"
lazy_static = "1"
libc = "0.2"
proc-maps = "0.1"
