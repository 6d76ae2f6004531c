[package]
name = "soma"
version = "0.1.0"
edition = "2021"
publish = false

[dependencies]
cranelift-codegen = "0.125"
cranelift-frontend = "0.125"
cranelift-jit = "0.125"
cranelift-module = "0.125"
cranelift-native = "0.125"
