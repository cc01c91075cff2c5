[package]
name = "emscript"
version = "0.1.0"
edition = "2021"
publish = false

[dependencies]
slotmap = "=1.1.1"
cranelift = "=0.129.2"
cranelift-jit = "=0.129.2"
cranelift-module = "=0.129.2"
