[package]
name = "lambdaworks_stark"
version = "0.1.0"
edition = "2021"
publish = false

[dependencies]
sha3 = "0.10"
thiserror = "1.0"
cudarc = "0.9"
metal = "0.24"
objc = "0.2.7"
